use decs::frame::Frame;
use decs::query::Query;
use decs::system::SystemInfo;
use decs::view::ViewMut;
use decs::world::World;

#[derive(Clone, Debug, PartialEq)]
enum Comp {
    Position { x: f32, y: f32 },
    Velocity { x: f32, y: f32 },
    Frozen,
}

const POSITION: u32 = 2;
const VELOCITY: u32 = 3;
const FROZEN: u32 = 6;

/// The declaration of a user system that runs a query.
fn system_for(id: u32, required: &[u32], mutable: &[u32], excluded: &[u32], changed: &[u32]) -> (Query, SystemInfo) {
    let mut q = Query::new();
    q.required = required.to_vec();
    q.mutable = mutable.to_vec();
    q.excluded = excluded.to_vec();
    q.changed = changed.to_vec();
    let info = q.declare(id);
    (q, info)
}

const MOVE_SYSTEM: u32 = 100;

fn position(world: &World<Comp>, i: u32) -> (f32, f32) {
    match world.get_storage(POSITION).unwrap().get(i) {
        Some(Comp::Position { x, y }) => (*x, *y),
        other => panic!("no position at {}: {:?}", i, other),
    }
}

fn velocity(world: &World<Comp>, i: u32) -> (f32, f32) {
    match world.get_storage(VELOCITY).unwrap().get(i) {
        Some(Comp::Velocity { x, y }) => (*x, *y),
        other => panic!("no velocity at {}: {:?}", i, other),
    }
}

/// Writes a position through a write handle, as a system does.
fn write_position(world: &mut World<Comp>, frame: &Frame, i: u32, x: f32, y: f32) {
    let mut pos = ViewMut::new(world.get_storage_mut(POSITION), i, frame.current_tick);
    assert!(pos.set(Comp::Position { x, y }).is_ok());
}

/// The work of a movement system: adds the velocity to the position of
/// every slot that has both and none of the excluded components. Says how
/// many slots it visited.
fn move_by_velocity(world: &mut World<Comp>, frame: &Frame, excluded: &[u32]) -> usize {
    let (q, _info) = system_for(MOVE_SYSTEM, &[POSITION, VELOCITY], &[POSITION], excluded, &[]);
    let slots = world.query(&q);
    for &i in slots.iter() {
        let (px, py) = position(world, i);
        let (vx, vy) = velocity(world, i);
        write_position(world, frame, i, px + vx, py + vy);
    }
    slots.len()
}

fn two_movers(world: &mut World<Comp>) {
    let frame = Frame::new(world.current_tick());
    assert!(world.get_storage_mut(POSITION).set(&frame, 0, Comp::Position { x: 0.0, y: 0.0 }).is_ok());
    assert!(world.get_storage_mut(VELOCITY).set(&frame, 0, Comp::Velocity { x: 1.0, y: 2.0 }).is_ok());
    assert!(world.get_storage_mut(POSITION).set(&frame, 1, Comp::Position { x: 10.0, y: 20.0 }).is_ok());
    assert!(world.get_storage_mut(VELOCITY).set(&frame, 1, Comp::Velocity { x: 5.0, y: 10.0 }).is_ok());
}

#[test]
fn test_system_macro_basic() {
    let mut world: World<Comp> = World::new();
    two_movers(&mut world);

    let frame = Frame::new(world.current_tick());
    move_by_velocity(&mut world, &frame, &[]);

    assert_eq!(position(&world, 0), (1.0, 2.0));
    assert_eq!(position(&world, 1), (15.0, 30.0));
}

#[test]
fn test_system_macro_none_filter() {
    let mut world: World<Comp> = World::new();
    two_movers(&mut world);
    {
        let frame = Frame::new(world.current_tick());
        assert!(world.get_storage_mut(FROZEN).set(&frame, 1, Comp::Frozen).is_ok());
    }

    let frame = Frame::new(world.current_tick());
    move_by_velocity(&mut world, &frame, &[FROZEN]);

    assert_eq!(position(&world, 0), (1.0, 2.0));
    assert_eq!(position(&world, 1), (10.0, 20.0));
}

#[test]
fn none_test_10k_matches_500() {
    let mut world: World<Comp> = World::new();
    {
        let frame = Frame::new(world.current_tick());
        for i in 0..10_000u32 {
            assert!(world.get_storage_mut(POSITION).set(&frame, i, Comp::Position { x: 0.0, y: 0.0 }).is_ok());
            assert!(world.get_storage_mut(VELOCITY).set(&frame, i, Comp::Velocity { x: 1.0, y: 2.0 }).is_ok());
            if i >= 500 {
                assert!(world.get_storage_mut(FROZEN).set(&frame, i, Comp::Frozen).is_ok());
            }
        }
    }

    let (q, _info) = system_for(MOVE_SYSTEM, &[POSITION, VELOCITY], &[POSITION], &[FROZEN], &[]);
    let slots = world.query(&q);
    assert_eq!(slots.len(), 500);
    let expected: Vec<u32> = (0..500).collect();
    assert_eq!(slots, expected);
}

#[test]
fn viewmut_mask_propagation_basic() {
    let mut world: World<Comp> = World::new();
    two_movers(&mut world);
    world.get_storage_mut(POSITION).clear_changed_masks();
    world.get_storage_mut(VELOCITY).clear_changed_masks();

    let frame = Frame::new(world.current_tick());
    move_by_velocity(&mut world, &frame, &[]);

    let pos_storage = world.get_storage(POSITION).unwrap();
    let vel_storage = world.get_storage(VELOCITY).unwrap();

    assert_eq!(pos_storage.changed_mask & 1, 1);
    let page = pos_storage.data[0].as_ref().unwrap();
    assert_eq!(page.changed_mask & 1, 1);
    let chunk = page.data[0].as_ref().unwrap();
    assert_eq!(chunk.changed_mask & 1, 1);
    assert_eq!((chunk.changed_mask >> 1) & 1, 1);

    assert_eq!(vel_storage.changed_mask, 0);
}

#[test]
fn viewmut_mask_propagation_with_none_filter() {
    let mut world: World<Comp> = World::new();
    two_movers(&mut world);
    {
        let frame = Frame::new(world.current_tick());
        assert!(world.get_storage_mut(FROZEN).set(&frame, 1, Comp::Frozen).is_ok());
    }
    world.get_storage_mut(POSITION).clear_changed_masks();
    world.get_storage_mut(VELOCITY).clear_changed_masks();
    world.get_storage_mut(FROZEN).clear_changed_masks();

    let frame = Frame::new(world.current_tick());
    move_by_velocity(&mut world, &frame, &[FROZEN]);

    let pos_storage = world.get_storage(POSITION).unwrap();
    let vel_storage = world.get_storage(VELOCITY).unwrap();

    assert_eq!(pos_storage.changed_mask & 1, 1);
    let page = pos_storage.data[0].as_ref().unwrap();
    assert_eq!(page.changed_mask & 1, 1);
    let chunk = page.data[0].as_ref().unwrap();
    assert_eq!(chunk.changed_mask & 1, 1);
    assert_eq!((chunk.changed_mask >> 1) & 1, 0);

    assert_eq!(vel_storage.changed_mask, 0);
}
