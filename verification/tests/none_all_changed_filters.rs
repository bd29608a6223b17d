use decs::frame::Frame;
use decs::query::Query;
use decs::system::{SystemInfo, SystemKind};
use decs::tick::Tick;
use decs::view::ViewMut;
use decs::world::World;

#[derive(Clone, Debug, PartialEq)]
enum Comp {
    Position { x: f32, y: f32 },
    Velocity { x: f32, y: f32 },
    Frozen,
}

const POSITION: u32 = 2;
const VELOCITY: u32 = 3;
const FROZEN: u32 = 6;

/// Advances the tick by one and gives every system its turn, wavefront by
/// wavefront: the built-in systems do their work in the world, a user
/// system is handed to `user` by its identity.
fn run_tick(world: &mut World<Comp>, user: &mut dyn FnMut(&mut World<Comp>, u32, &Frame)) {
    let next = world.current_tick().next();
    world.set_tick(next);
    let frame = Frame::new(world.current_tick());
    let waves: Vec<Vec<usize>> = world.scheduler().wavefronts().clone();
    for wave in waves {
        for idx in wave {
            let (kind, id) = {
                let info = world.scheduler().system(idx);
                (info.kind, info.id)
            };
            match kind {
                SystemKind::User => user(world, id, &frame),
                other => world.run_builtin(other, &frame),
            }
        }
    }
}

/// The declaration of a user system that runs a query.
fn system_for(id: u32, required: &[u32], mutable: &[u32], excluded: &[u32], changed: &[u32]) -> (Query, SystemInfo) {
    let mut q = Query::new();
    q.required = required.to_vec();
    q.mutable = mutable.to_vec();
    q.excluded = excluded.to_vec();
    q.changed = changed.to_vec();
    let info = q.declare(id);
    (q, info)
}

const MOVE_SYSTEM: u32 = 100;
const NOOP_SYSTEM: u32 = 900;

fn position(world: &World<Comp>, i: u32) -> (f32, f32) {
    match world.get_storage(POSITION).unwrap().get(i) {
        Some(Comp::Position { x, y }) => (*x, *y),
        other => panic!("no position at {}: {:?}", i, other),
    }
}

/// Writes a position through a write handle, as a system does.
fn write_position(world: &mut World<Comp>, frame: &Frame, i: u32, x: f32, y: f32) {
    let mut pos = ViewMut::new(world.get_storage_mut(POSITION), i, frame.current_tick);
    assert!(pos.set(Comp::Position { x, y }).is_ok());
}

/// The work of a system that adds `dx` and `dy` to the position of every
/// slot that holds all of the required components.
fn shift_positions(world: &mut World<Comp>, frame: &Frame, required: &[u32], dx: f32, dy: f32) -> usize {
    let (q, _info) = system_for(MOVE_SYSTEM, required, &[POSITION], &[], &[]);
    let slots = world.query(&q);
    for &i in slots.iter() {
        let (px, py) = position(world, i);
        write_position(world, frame, i, px + dx, py + dy);
    }
    slots.len()
}

/// How many slots the open journal of the positions records as changed.
fn count_changed_position(world: &World<Comp>) -> u32 {
    let pos = match world.get_storage(POSITION) {
        Some(pos) => pos,
        None => return 0,
    };
    let rb = &pos.rollback;
    let mut total: u32 = 0;
    for storage_idx in 0..64u32 {
        if let Some(page) = rb.get_page(storage_idx) {
            for page_idx in 0..64u32 {
                if let Some(chunk) = page.get(page_idx) {
                    total = total.saturating_add(chunk.changed_mask.count_ones());
                }
            }
        }
    }
    total
}

/// How many slots of the positions count as written since the last clear.
fn count_storage_changed_position(world: &World<Comp>) -> u32 {
    let pos = match world.get_storage(POSITION) {
        Some(pos) => pos,
        None => return 0,
    };
    let mut total: u32 = 0;
    let mut storage_mask = pos.changed_mask & pos.presence_mask;
    while storage_mask != 0 {
        let s = storage_mask.trailing_zeros() as usize;
        let page = pos.data[s].as_ref().unwrap();
        let mut page_mask = page.changed_mask & page.presence_mask;
        while page_mask != 0 {
            let p = page_mask.trailing_zeros() as usize;
            let chunk = page.data[p].as_ref().unwrap();
            total = total.saturating_add(chunk.changed_mask.count_ones());
            page_mask &= page_mask - 1;
        }
        storage_mask &= storage_mask - 1;
    }
    total
}

/// How many slots match a query.
fn count(world: &World<Comp>, required: &[u32], excluded: &[u32]) -> u32 {
    let (q, _info) = system_for(NOOP_SYSTEM, required, &[], excluded, &[]);
    world.query(&q).len() as u32
}

fn count_none_frozen(world: &World<Comp>) -> u32 {
    count(world, &[POSITION], &[FROZEN])
}

fn count_all_velocity(world: &World<Comp>) -> u32 {
    count(world, &[POSITION, VELOCITY], &[])
}

/// Adds a system that bumps the x of every position with a velocity.
fn add_mut_pos_on_vel(world: &mut World<Comp>) {
    let (_q, info) = system_for(MOVE_SYSTEM, &[POSITION, VELOCITY], &[POSITION], &[], &[]);
    world.scheduler_mut().add_system_info(info);
}

fn run_systems(world: &mut World<Comp>) {
    run_tick(world, &mut |w, id, f| {
        if id == MOVE_SYSTEM {
            shift_positions(w, f, &[POSITION, VELOCITY], 1.0, 0.0);
        }
    });
}

#[test]
fn none_filter_counts_without_frozen() {
    let mut world: World<Comp> = World::new();
    {
        let f = Frame::new(world.current_tick());
        for i in 0..1000u32 {
            assert!(world.get_storage_mut(POSITION).set(&f, i, Comp::Position { x: 0.0, y: 0.0 }).is_ok());
            if i % 5 == 0 {
                assert!(world.get_storage_mut(FROZEN).set(&f, i, Comp::Frozen).is_ok());
            }
        }
    }
    let c = count_none_frozen(&world);
    assert_eq!(c, 800);
}

#[test]
fn all_filter_counts_with_velocity_present() {
    let mut world: World<Comp> = World::new();
    {
        let f = Frame::new(world.current_tick());
        for i in 0..1200u32 {
            assert!(world.get_storage_mut(POSITION).set(&f, i, Comp::Position { x: 0.0, y: 0.0 }).is_ok());
            if i % 3 == 0 {
                assert!(world.get_storage_mut(VELOCITY).set(&f, i, Comp::Velocity { x: 1.0, y: 2.0 }).is_ok());
            }
        }
    }
    let c = count_all_velocity(&world);
    assert_eq!(c, 400);
}

#[test]
fn changed_filter_counts_only_mutated_positions() {
    let mut world: World<Comp> = World::new();
    world.set_tick(Tick(1));
    {
        let f = Frame::new(world.current_tick());
        for i in 0..900u32 {
            assert!(world.get_storage_mut(POSITION).set(&f, i, Comp::Position { x: i as f32, y: 0.0 }).is_ok());
            if i % 4 == 0 {
                assert!(world.get_storage_mut(VELOCITY).set(&f, i, Comp::Velocity { x: 1.0, y: 1.0 }).is_ok());
            }
        }
    }
    add_mut_pos_on_vel(&mut world);
    world.scheduler_mut().build_wavefronts();
    run_systems(&mut world);
    let c = count_changed_position(&world);
    assert_eq!(c, 225);
}

#[test]
fn none_all_combination() {
    let mut world: World<Comp> = World::new();
    {
        let f = Frame::new(world.current_tick());
        for i in 0..256u32 {
            assert!(world.get_storage_mut(POSITION).set(&f, i, Comp::Position { x: 0.0, y: 0.0 }).is_ok());
            if i % 2 == 0 {
                assert!(world.get_storage_mut(VELOCITY).set(&f, i, Comp::Velocity { x: 1.0, y: 2.0 }).is_ok());
            }
            if i % 3 == 0 {
                assert!(world.get_storage_mut(FROZEN).set(&f, i, Comp::Frozen).is_ok());
            }
        }
    }
    let c_none = count_none_frozen(&world);
    let c_all = count_all_velocity(&world);
    assert_eq!(c_none, 170);
    assert_eq!(c_all, 128);
}

#[test]
fn changed_after_multiple_viewmut_runs_counts_once_per_entity() {
    let mut world: World<Comp> = World::new();
    world.set_tick(Tick(2));
    {
        let f = Frame::new(world.current_tick());
        for i in 0..300u32 {
            assert!(world.get_storage_mut(POSITION).set(&f, i, Comp::Position { x: 0.0, y: 0.0 }).is_ok());
            assert!(world.get_storage_mut(VELOCITY).set(&f, i, Comp::Velocity { x: 1.0, y: 1.0 }).is_ok());
        }
    }
    add_mut_pos_on_vel(&mut world);
    add_mut_pos_on_vel(&mut world);
    world.scheduler_mut().build_wavefronts();
    run_systems(&mut world);
    let c = count_changed_position(&world);
    assert_eq!(c, 300);
    assert_eq!(position(&world, 7), (2.0, 0.0));
}

#[test]
fn none_filter_with_no_data_counts_zero() {
    let world: World<Comp> = World::new();
    let c = count_none_frozen(&world);
    assert_eq!(c, 0);
}

#[test]
fn all_filter_with_no_velocity_counts_zero() {
    let mut world: World<Comp> = World::new();
    {
        let f = Frame::new(world.current_tick());
        for i in 0..100u32 {
            assert!(world.get_storage_mut(POSITION).set(&f, i, Comp::Position { x: 0.0, y: 0.0 }).is_ok());
        }
    }
    let c = count_all_velocity(&world);
    assert_eq!(c, 0);
}

#[test]
fn changed_filter_without_mutation_counts_zero() {
    let mut world: World<Comp> = World::new();
    {
        let f = Frame::new(world.current_tick());
        for i in 0..50u32 {
            assert!(world.get_storage_mut(POSITION).set(&f, i, Comp::Position { x: 1.0, y: 1.0 }).is_ok());
        }
    }
    let c = count_changed_position(&world);
    assert_eq!(c, 0);
}

#[test]
fn changed_filter_after_remove_and_add_counts_change() {
    let mut world: World<Comp> = World::new();
    world.set_tick(Tick(9));
    {
        let f = Frame::new(world.current_tick());
        assert!(world.get_storage_mut(POSITION).set(&f, 5, Comp::Position { x: 1.0, y: 2.0 }).is_ok());
    }
    world.set_tick(Tick(10));
    {
        let f = Frame::new(world.current_tick());
        let pos = world.get_storage_mut(POSITION);
        assert!(pos.remove(&f, 5));
        assert!(pos.set(&f, 5, Comp::Position { x: 3.0, y: 4.0 }).is_ok());
    }
    assert_eq!(count_changed_position(&world), 1);
    world.scheduler_mut().build_wavefronts();
    world.run();
    let c = count_storage_changed_position(&world);
    assert_eq!(c, 0);
}
