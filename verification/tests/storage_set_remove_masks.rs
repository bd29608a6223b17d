use decs::frame::Frame;
use decs::query::Query;
use decs::system::{SystemInfo, SystemKind};
use decs::tick::Tick;
use decs::world::World;

#[derive(Clone, Debug, PartialEq)]
enum Comp {
    Position { x: f32, y: f32 },
    TestC { v: i32 },
}

const POSITION: u32 = 2;
const TEST_C: u32 = 4;

/// Advances the tick by one and gives every system its turn, wavefront by
/// wavefront: the built-in systems do their work in the world, a user
/// system is handed to `user` by its identity.
fn run_tick(world: &mut World<Comp>, user: &mut dyn FnMut(&mut World<Comp>, u32, &Frame)) {
    let next = world.current_tick().next();
    world.set_tick(next);
    let frame = Frame::new(world.current_tick());
    let waves: Vec<Vec<usize>> = world.scheduler().wavefronts().clone();
    for wave in waves {
        for idx in wave {
            let (kind, id) = {
                let info = world.scheduler().system(idx);
                (info.kind, info.id)
            };
            match kind {
                SystemKind::User => user(world, id, &frame),
                other => world.run_builtin(other, &frame),
            }
        }
    }
}

/// The declaration of a user system that runs a query.
fn system_for(id: u32, required: &[u32], mutable: &[u32], excluded: &[u32], changed: &[u32]) -> (Query, SystemInfo) {
    let mut q = Query::new();
    q.required = required.to_vec();
    q.mutable = mutable.to_vec();
    q.excluded = excluded.to_vec();
    q.changed = changed.to_vec();
    let info = q.declare(id);
    (q, info)
}

/// Adds a system that reads the positions and does nothing, builds the
/// wavefronts and runs one tick.
fn run_noop(world: &mut World<Comp>) {
    let (_q, info) = system_for(900, &[POSITION], &[], &[], &[]);
    world.scheduler_mut().add_system_info(info);
    world.scheduler_mut().build_wavefronts();
    run_tick(world, &mut |_w, _id, _f| {});
}

#[test]
fn set_creates_page_chunk_and_marks_masks() {
    let mut world: World<Comp> = World::new();
    let frame = Frame::new(world.current_tick());
    let s = world.get_storage_mut(TEST_C);
    assert!(s.set(&frame, 64, Comp::TestC { v: 1 }).is_ok());
    assert!(world.verify_invariants());
    run_noop(&mut world);
    assert!(world.verify_invariants());
}

#[test]
fn remove_nonexistent_returns_false() {
    let mut world: World<Comp> = World::new();
    let frame = Frame::new(world.current_tick());
    let s = world.get_storage_mut(TEST_C);
    assert!(!s.remove(&frame, 12345));
    run_noop(&mut world);
    assert!(world.verify_invariants());
}

#[test]
fn remove_out_of_range_returns_false() {
    let mut world: World<Comp> = World::new();
    let frame = Frame::new(world.current_tick());
    let s = world.get_storage_mut(TEST_C);
    assert!(!s.remove(&frame, 64 * 64 * 64));
    run_noop(&mut world);
}

#[test]
fn remove_drops_chunk_when_empty() {
    let mut world: World<Comp> = World::new();
    let frame = Frame::new(world.current_tick());
    let s = world.get_storage_mut(TEST_C);
    assert!(s.set(&frame, 65, Comp::TestC { v: 7 }).is_ok());
    assert!(s.remove(&frame, 65));
    assert!(s.data[0].is_none());
    assert!(world.verify_invariants());
    run_noop(&mut world);
}

#[test]
fn remove_drops_page_when_empty() {
    let mut world: World<Comp> = World::new();
    let frame = Frame::new(world.current_tick());
    let s = world.get_storage_mut(TEST_C);
    assert!(s.set(&frame, 64, Comp::TestC { v: 3 }).is_ok());
    assert!(s.remove(&frame, 64));
    assert_eq!(s.presence_mask, 0);
    assert!(world.verify_invariants());
    run_noop(&mut world);
}

#[test]
fn set_then_remove_same_tick_idempotent() {
    let mut world: World<Comp> = World::new();
    world.set_tick(Tick(10));
    let frame = Frame::new(world.current_tick());
    let s = world.get_storage_mut(TEST_C);
    assert!(s.set(&frame, 4097, Comp::TestC { v: 5 }).is_ok());
    assert!(s.remove(&frame, 4097));
    assert!(world.verify_invariants());

    assert!(world.rollback(Tick(9)).is_ok());
    assert!(world.verify_invariants());
    run_noop(&mut world);
}

#[test]
fn set_modify_same_tick_keeps_created_mask_effect() {
    let mut world: World<Comp> = World::new();
    world.set_tick(Tick(20));
    {
        let f = Frame::new(world.current_tick());
        let s = world.get_storage_mut(TEST_C);
        assert!(s.set(&f, 512, Comp::TestC { v: 1 }).is_ok());
        assert!(s.set(&f, 512, Comp::TestC { v: 2 }).is_ok());
    }
    assert!(world.verify_invariants());

    assert!(world.rollback(Tick(19)).is_ok());
    assert!(world.get_storage(TEST_C).unwrap().get(512).is_none());
    run_noop(&mut world);
}

#[test]
fn set_after_remove_same_tick_marks_changed_effect() {
    let mut world: World<Comp> = World::new();
    world.set_tick(Tick(30));
    {
        let f = Frame::new(world.current_tick());
        let s = world.get_storage_mut(TEST_C);
        assert!(s.set(&f, 777, Comp::TestC { v: 9 }).is_ok());
    }
    world.set_tick(Tick(31));
    {
        let f = Frame::new(world.current_tick());
        let s = world.get_storage_mut(TEST_C);
        assert!(s.remove(&f, 777));
        assert!(s.set(&f, 777, Comp::TestC { v: 11 }).is_ok());
    }
    assert!(world.rollback(Tick(30)).is_ok());
    assert_eq!(world.get_storage(TEST_C).unwrap().get(777), Some(&Comp::TestC { v: 9 }));
    run_noop(&mut world);
}

#[test]
fn get_out_of_bounds_none() {
    let mut world: World<Comp> = World::new();
    let _ = world.get_storage_mut(TEST_C);
    assert!(world.get_storage(TEST_C).unwrap().get(64 * 64 * 64).is_none());

    let f = Frame::new(world.current_tick());
    let pos = world.get_storage_mut(POSITION);
    assert!(pos.set(&f, 0, Comp::Position { x: 1.0, y: 1.0 }).is_ok());
    run_noop(&mut world);
}

#[test]
fn presence_fullness_invariants_after_many_sets_and_removes() {
    let mut world: World<Comp> = World::new();
    {
        let f = Frame::new(world.current_tick());
        let s = world.get_storage_mut(TEST_C);
        for i in [0u32, 63, 64, 127, 4096, 4160, 8191].iter().copied() {
            assert!(s.set(&f, i, Comp::TestC { v: i as i32 }).is_ok());
        }
        assert!(s.remove(&f, 63));
        assert!(s.remove(&f, 4160));
    }
    assert!(world.verify_invariants());
    run_noop(&mut world);
}
