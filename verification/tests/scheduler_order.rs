use decs::frame::Frame;
use decs::system::{SystemInfo, SystemKind};
use decs::world::World;

#[derive(Clone, Debug, PartialEq)]
enum Comp {
    Position { x: f32, y: f32 },
    Velocity { x: f32, y: f32 },
}

const POSITION: u32 = 2;
const VELOCITY: u32 = 3;

/// Advances the tick by one and gives every system its turn, wavefront by
/// wavefront: the built-in systems do their work in the world, a user
/// system is handed to `user` by its identity.
fn run_tick(world: &mut World<Comp>, user: &mut dyn FnMut(&mut World<Comp>, u32, &Frame)) {
    let next = world.current_tick().next();
    world.set_tick(next);
    let frame = Frame::new(world.current_tick());
    let waves: Vec<Vec<usize>> = world.scheduler().wavefronts().clone();
    for wave in waves {
        for idx in wave {
            let (kind, id) = {
                let info = world.scheduler().system(idx);
                (info.kind, info.id)
            };
            match kind {
                SystemKind::User => user(world, id, &frame),
                other => world.run_builtin(other, &frame),
            }
        }
    }
}

use decs::system::{CLEANUP_GROUP, DESTROY_GROUP, SIMULATION_GROUP};

/// A user system by its declaration: the identity doubles as the mark
/// that the system leaves in the run order.
fn declare(id: u32, reads: &[u32], writes: &[u32]) -> SystemInfo {
    let mut info = SystemInfo::new(id);
    info.reads = reads.to_vec();
    info.writes = writes.to_vec();
    info
}

fn in_group(id: u32, group: u32) -> SystemInfo {
    let mut info = SystemInfo::new(id);
    info.parent = Some(group);
    info
}

/// Builds the wavefronts, runs one tick, and gives the user systems in the
/// order in which they had their turn.
fn run_order(world: &mut World<Comp>) -> Vec<u32> {
    world.scheduler_mut().build_wavefronts();
    let mut order: Vec<u32> = Vec::new();
    run_tick(world, &mut |_w, id, _f| order.push(id));
    order
}

#[test]
fn writer_reader_order_enforced() {
    let mut world: World<Comp> = World::new();
    let f = Frame::new(world.current_tick());
    assert!(world.get_storage_mut(POSITION).set(&f, 0, Comp::Position { x: 0.0, y: 0.0 }).is_ok());
    world.scheduler_mut().add_system_info(declare(100, &[], &[POSITION]));
    world.scheduler_mut().add_system_info(declare(200, &[POSITION], &[]));
    world.scheduler_mut().build_wavefronts();
    assert!(world.scheduler().wavefronts().len() >= 2);
    let o = run_order(&mut world);
    assert!(o[0] == 100 && o[1] == 200);
}

#[test]
fn writer_writer_chain_serialized() {
    let mut world: World<Comp> = World::new();
    let f = Frame::new(world.current_tick());
    assert!(world.get_storage_mut(POSITION).set(&f, 0, Comp::Position { x: 0.0, y: 0.0 }).is_ok());
    let first = world.scheduler_mut().add_system_info(declare(100, &[], &[POSITION]));
    let second = world.scheduler_mut().add_system_info(declare(100, &[], &[POSITION]));
    let o = run_order(&mut world);
    assert!(o[0] == 100 && o[1] == 100);
    assert!(world.scheduler().level[first] < world.scheduler().level[second]);
}

#[test]
fn independent_readers_same_wavefront() {
    let mut world: World<Comp> = World::new();
    let first = world.scheduler_mut().add_system_info(declare(210, &[POSITION], &[]));
    let second = world.scheduler_mut().add_system_info(declare(220, &[POSITION], &[]));
    let o = run_order(&mut world);
    assert!((o[0] == 210 && o[1] == 220) || (o[0] == 220 && o[1] == 210));
    assert_eq!(world.scheduler().level[first], world.scheduler().level[second]);
}

#[test]
fn group_order_simulation_before_cleanup_and_cleanup_before_destroy() {
    let mut world: World<Comp> = World::new();
    let f = Frame::new(world.current_tick());
    assert!(world.get_storage_mut(POSITION).set(&f, 0, Comp::Position { x: 0.0, y: 0.0 }).is_ok());
    assert!(world.get_storage_mut(VELOCITY).set(&f, 0, Comp::Velocity { x: 1.0, y: 1.0 }).is_ok());
    world.scheduler_mut().add_system_info(in_group(500, SIMULATION_GROUP));
    world.scheduler_mut().add_system_info(in_group(600, CLEANUP_GROUP));
    world.scheduler_mut().add_system_info(in_group(700, DESTROY_GROUP));
    let o = run_order(&mut world);
    assert!(o[0] == 500 && o[1] == 600 && o[2] == 700);
}

#[test]
fn system_before_after_edges_respected() {
    let mut world: World<Comp> = World::new();
    let mut a = SystemInfo::new(800);
    a.before = vec![900];
    let mut b = SystemInfo::new(900);
    b.after = vec![800];
    world.scheduler_mut().add_system_info(a);
    world.scheduler_mut().add_system_info(b);
    let o = run_order(&mut world);
    assert!(o[0] == 800 && o[1] == 900);
}

#[test]
fn conflicting_writes_split_wavefronts() {
    let mut world: World<Comp> = World::new();
    let w1 = world.scheduler_mut().add_system_info(declare(310, &[], &[POSITION]));
    let w2 = world.scheduler_mut().add_system_info(declare(320, &[], &[POSITION]));
    let r = world.scheduler_mut().add_system_info(declare(330, &[POSITION], &[]));
    world.scheduler_mut().build_wavefronts();
    assert!(world.scheduler().wavefronts().len() >= 2);
    let o = run_order(&mut world);
    assert_eq!(o, vec![310, 320, 330]);
    let level = &world.scheduler().level;
    assert!(level[w1] != level[w2]);
    assert!(level[w1] < level[r] && level[w2] < level[r]);
}

#[test]
fn independent_components_merge_wavefronts() {
    let mut world: World<Comp> = World::new();
    let w = world.scheduler_mut().add_system_info(declare(410, &[], &[VELOCITY]));
    let r = world.scheduler_mut().add_system_info(declare(420, &[POSITION], &[]));
    let o = run_order(&mut world);
    assert_eq!(o.len(), 2);
    assert_eq!(world.scheduler().level[w], world.scheduler().level[r]);
}
