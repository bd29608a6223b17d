use decs::frame::Frame;
use decs::scheduler::Scheduler;
use decs::system::{
    describe_group, describe_system, GroupInfo, System, SystemGroup, SystemInfo, SystemKind, SIMULATION_GROUP,
};
use decs::tick::Tick;
use std::sync::{Arc, Mutex};

const C1: u32 = 2;
const SHARED: u32 = 3;

/// A system that records its name when it runs.
#[derive(Clone)]
struct Recorded {
    name: &'static str,
    id: u32,
    reads: Vec<u32>,
    writes: Vec<u32>,
    before: Vec<u32>,
    after: Vec<u32>,
    parent: Option<u32>,
    log: Arc<Mutex<Vec<&'static str>>>,
}

impl System for Recorded {
    fn run(&self, _frame: &Frame) {
        self.log.lock().unwrap().push(self.name);
    }
    fn id(&self) -> u32 {
        self.id
    }
    fn before(&self) -> Vec<u32> {
        self.before.clone()
    }
    fn after(&self) -> Vec<u32> {
        self.after.clone()
    }
    fn reads(&self) -> Vec<u32> {
        self.reads.clone()
    }
    fn writes(&self) -> Vec<u32> {
        self.writes.clone()
    }
    fn parent(&self) -> Option<u32> {
        self.parent
    }
}

struct Group {
    id: u32,
    before: Vec<u32>,
    after: Vec<u32>,
    parent: Option<u32>,
}

impl SystemGroup for Group {
    fn id(&self) -> u32 {
        self.id
    }
    fn before(&self) -> Vec<u32> {
        self.before.clone()
    }
    fn after(&self) -> Vec<u32> {
        self.after.clone()
    }
    fn parent(&self) -> Option<u32> {
        self.parent
    }
}

fn system(name: &'static str, id: u32, log: &Arc<Mutex<Vec<&'static str>>>) -> Recorded {
    Recorded {
        name,
        id,
        reads: Vec::new(),
        writes: Vec::new(),
        before: Vec::new(),
        after: Vec::new(),
        parent: None,
        log: log.clone(),
    }
}

fn level_of(s: &Scheduler, index: usize) -> usize {
    s.wavefronts().iter().position(|lvl| lvl.contains(&index)).unwrap()
}

// The order that a system or a group declares binds two systems only where
// they conflict, so the systems of the ordering tests share a component
// that one of them writes.

#[test]
fn scheduler_respects_before_after() {
    let log = Arc::new(Mutex::new(Vec::new()));
    let mut s2 = system("S2", 20, &log);
    s2.reads = vec![SHARED];
    let mut s1 = system("S1", 10, &log);
    s1.writes = vec![SHARED];
    s1.before = vec![20];
    let mut s = Scheduler::new();
    s.add_system(&s2);
    s.add_system(&s1);
    s.build_wavefronts();
    assert!(level_of(&s, 1) < level_of(&s, 0));

    s.run(&vec![s2, s1], &Frame::new(Tick(1)));
    assert_eq!(*log.lock().unwrap(), vec!["S1", "S2"]);
}

#[test]
fn scheduler_respects_write_read() {
    let log = Arc::new(Mutex::new(Vec::new()));
    let mut reader = system("Reader", 1, &log);
    reader.reads = vec![C1];
    let mut writer = system("Writer", 2, &log);
    writer.writes = vec![C1];
    let mut s = Scheduler::new();
    s.add_system(&reader);
    s.add_system(&writer);
    s.build_wavefronts();
    assert!(level_of(&s, 1) < level_of(&s, 0));
    assert_ne!(level_of(&s, 1), level_of(&s, 0));
}

#[test]
fn scheduler_respects_group_inheritance() {
    // The group G runs before the group of SR and after the group of SP.
    let log = Arc::new(Mutex::new(Vec::new()));
    let (g, g_sr, g_sp) = (100, 101, 102);
    let mut sr = system("SR", 1, &log);
    sr.parent = Some(g_sr);
    let mut sa = system("SA", 2, &log);
    sa.parent = Some(g);
    let mut sb = system("SB", 3, &log);
    sb.parent = Some(g);
    let mut sp = system("SP", 4, &log);
    sp.parent = Some(g_sp);
    sr.reads = vec![SHARED];
    sa.writes = vec![SHARED];
    sb.writes = vec![SHARED];
    sp.writes = vec![SHARED];

    let mut s = Scheduler::new();
    s.add_group(&Group { id: g, before: vec![g_sr], after: vec![g_sp], parent: None });
    s.add_system(&sr);
    s.add_system(&sa);
    s.add_system(&sb);
    s.add_system(&sp);
    s.build_wavefronts();
    assert!(level_of(&s, 3) < level_of(&s, 1));
    assert!(level_of(&s, 3) < level_of(&s, 2));
    assert!(level_of(&s, 1) < level_of(&s, 0));
    assert!(level_of(&s, 2) < level_of(&s, 0));
}

#[test]
fn readers_share_wavefront() {
    let log = Arc::new(Mutex::new(Vec::new()));
    let mut r1 = system("R1", 1, &log);
    r1.reads = vec![C1];
    let mut r2 = system("R2", 2, &log);
    r2.reads = vec![C1];
    let mut s = Scheduler::new();
    s.add_system(&r1);
    s.add_system(&r2);
    s.build_wavefronts();
    assert_eq!(level_of(&s, 0), level_of(&s, 1));
}

#[test]
fn writers_separated_wavefronts() {
    let log = Arc::new(Mutex::new(Vec::new()));
    let mut w1 = system("W1", 1, &log);
    w1.writes = vec![C1];
    let mut w2 = system("W2", 2, &log);
    w2.writes = vec![C1];
    let mut s = Scheduler::new();
    s.add_system(&w1);
    s.add_system(&w2);
    s.build_wavefronts();
    assert!(level_of(&s, 0) < level_of(&s, 1));
    assert_ne!(level_of(&s, 0), level_of(&s, 1));
}

#[test]
fn after_chain_levels() {
    let log = Arc::new(Mutex::new(Vec::new()));
    let mut a = system("A", 1, &log);
    a.after = vec![2];
    let mut b = system("B", 2, &log);
    b.after = vec![3];
    let mut c = system("C", 3, &log);
    a.reads = vec![C1];
    b.writes = vec![C1];
    b.reads = vec![SHARED];
    c.writes = vec![SHARED];
    let mut s = Scheduler::new();
    s.add_system(&a);
    s.add_system(&b);
    s.add_system(&c);
    s.build_wavefronts();
    assert!(level_of(&s, 2) < level_of(&s, 1));
    assert!(level_of(&s, 1) < level_of(&s, 0));
}

#[test]
fn before_chain_levels() {
    let log = Arc::new(Mutex::new(Vec::new()));
    let mut a = system("A", 1, &log);
    a.before = vec![2];
    let mut b = system("B", 2, &log);
    b.before = vec![3];
    let mut c = system("C", 3, &log);
    a.writes = vec![SHARED];
    b.writes = vec![SHARED];
    c.writes = vec![SHARED];
    let mut s = Scheduler::new();
    s.add_system(&a);
    s.add_system(&b);
    s.add_system(&c);
    s.build_wavefronts();
    assert!(level_of(&s, 0) < level_of(&s, 1));
    assert!(level_of(&s, 1) < level_of(&s, 2));
}

#[test]
fn nested_group_constraints() {
    // CG lies in PG. PG runs after the group of SP2, CG before that of SR2.
    let log = Arc::new(Mutex::new(Vec::new()));
    let (pg, cg, g_sp, g_sr) = (200, 201, 202, 203);
    let mut sr2 = system("SR2", 1, &log);
    sr2.parent = Some(g_sr);
    let mut sa2 = system("SA2", 2, &log);
    sa2.parent = Some(cg);
    let mut sb2 = system("SB2", 3, &log);
    sb2.parent = Some(cg);
    let mut sp2 = system("SP2", 4, &log);
    sp2.parent = Some(g_sp);
    sr2.reads = vec![SHARED];
    sa2.writes = vec![SHARED];
    sb2.writes = vec![SHARED];
    sp2.writes = vec![SHARED];

    let mut s = Scheduler::new();
    s.add_group_info({
        let mut g = GroupInfo::new(pg);
        g.after = vec![g_sp];
        g
    });
    s.add_group(&Group { id: cg, before: vec![g_sr], after: Vec::new(), parent: Some(pg) });
    s.add_system(&sr2);
    s.add_system(&sa2);
    s.add_system(&sb2);
    s.add_system(&sp2);
    s.build_wavefronts();
    assert!(level_of(&s, 3) < level_of(&s, 1));
    assert!(level_of(&s, 3) < level_of(&s, 2));
    assert!(level_of(&s, 1) < level_of(&s, 0));
    assert!(level_of(&s, 2) < level_of(&s, 0));
}

#[test]
fn a_declaration_is_taken_down_as_it_is_given() {
    let log = Arc::new(Mutex::new(Vec::new()));
    let mut sys = system("S", 7, &log);
    sys.reads = vec![2, 3];
    sys.writes = vec![4];
    sys.before = vec![8];
    sys.after = vec![9, 10];
    sys.parent = Some(SIMULATION_GROUP);
    let info = describe_system(&sys);
    assert_eq!(info.id, 7);
    assert_eq!(info.reads, vec![2, 3]);
    assert_eq!(info.writes, vec![4]);
    assert_eq!(info.before, vec![8]);
    assert_eq!(info.after, vec![9, 10]);
    assert_eq!(info.parent, Some(SIMULATION_GROUP));
    assert!(matches!(info.kind, SystemKind::User));

    let same = SystemInfo::declared(7, vec![2, 3], vec![4], vec![8], vec![9, 10], Some(SIMULATION_GROUP));
    assert_eq!(same.id, info.id);
    assert_eq!(same.reads, info.reads);
    assert_eq!(same.writes, info.writes);
    assert_eq!(same.before, info.before);
    assert_eq!(same.after, info.after);
    assert_eq!(same.parent, info.parent);
    assert!(matches!(same.kind, SystemKind::User));

    let group = Group { id: 50, before: vec![51], after: vec![52, 53], parent: Some(54) };
    let taken = describe_group(&group);
    assert_eq!(taken.id, 50);
    assert_eq!(taken.before, vec![51]);
    assert_eq!(taken.after, vec![52, 53]);
    assert_eq!(taken.parent, Some(54));
    let made = GroupInfo::declared(50, vec![51], vec![52, 53], Some(54));
    assert_eq!(made.id, 50);
    assert_eq!(made.before, vec![51]);
    assert_eq!(made.after, vec![52, 53]);
    assert_eq!(made.parent, Some(54));

    let mut s = Scheduler::new();
    let at = s.add_system(&sys);
    s.add_group(&group);
    assert_eq!(at, 0);
    assert_eq!(s.systems[0].id, 7);
    assert_eq!(s.systems[0].writes, vec![4]);
    assert_eq!(s.groups[0].id, 50);
    assert_eq!(s.groups[0].after, vec![52, 53]);
}

#[test]
fn a_new_scheduler_has_an_empty_schedule() {
    let s = Scheduler::new();
    assert_eq!(s.len(), 0);
    assert!(s.is_empty());
    assert!(s.systems.is_empty());
    assert!(s.groups.is_empty());
    assert!(s.wavefronts().is_empty());
    assert!(s.level.is_empty());
    assert_eq!(s.rounds, 0);
    assert!(!s.cyclic);
}

#[test]
fn adding_keeps_what_was_added_before() {
    let log = Arc::new(Mutex::new(Vec::new()));
    let mut s = Scheduler::new();
    let mut first = system("A", 1, &log);
    first.writes = vec![C1];
    let mut second = system("B", 2, &log);
    second.reads = vec![C1];
    assert_eq!(s.add_system(&first), 0);
    s.add_group(&Group { id: 60, before: vec![61], after: Vec::new(), parent: None });
    s.build_wavefronts();
    assert_eq!(s.wavefronts().len(), 1);
    assert_eq!(s.add_system(&second), 1);
    assert!(s.wavefronts().is_empty());
    s.add_group(&Group { id: 61, before: Vec::new(), after: Vec::new(), parent: Some(60) });
    assert_eq!(s.len(), 2);
    assert_eq!(s.systems[0].id, 1);
    assert_eq!(s.systems[0].writes, vec![C1]);
    assert_eq!(s.systems[1].id, 2);
    assert!(matches!(s.systems[1].kind, SystemKind::User));
    assert_eq!(s.groups.len(), 2);
    assert_eq!(s.groups[0].id, 60);
    assert_eq!(s.groups[0].before, vec![61]);
    assert_eq!(s.groups[1].id, 61);
    assert_eq!(s.groups[1].parent, Some(60));
}
