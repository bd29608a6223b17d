//! The dependency scheduler.
//!
//! From what the systems and groups declare the scheduler derives the edges
//! of a dependency graph, levels the graph, and offers the levels as
//! wavefronts: the systems of one wavefront may run in any order, the
//! wavefronts run one after the other.

use crate::frame::Frame;
use crate::graph::{levels_of, preds_earlier, DependencyGraph};
use crate::system::{
    describe_group, describe_system, is_cleanup_of, GroupInfo, System, SystemGroup, SystemInfo, SystemKind,
};
use vstd::prelude::*;

verus! {

/// The two lists have an element in common.
pub open spec fn intersects(x: Seq<u32>, y: Seq<u32>) -> bool {
    exists|i: int, j: int|
        #![trigger x[i], y[j]]
        0 <= i < x.len() && 0 <= j < y.len() && x[i] == y[j]
}

/// Two systems conflict: they share a component type that at least one of
/// them writes.
pub open spec fn conflicts(a: SystemInfo, b: SystemInfo) -> bool {
    intersects(a.writes@, b.writes@) || intersects(a.writes@, b.reads@) || intersects(b.writes@, a.reads@)
}

/// The position at or after `from` of the first group with the given
/// identity, or the number of groups where there is none.
pub open spec fn find_group(groups: Seq<GroupInfo>, id: u32, from: int) -> int
    decreases groups.len() - from,
{
    if from < 0 || from >= groups.len() {
        groups.len() as int
    } else if groups[from].id == id {
        from
    } else {
        find_group(groups, id, from + 1)
    }
}

/// The group `start`, its parent, the parent of that, and so on, for at
/// most `fuel` steps. A group that is not declared ends the chain.
pub open spec fn chain(groups: Seq<GroupInfo>, start: Option<u32>, fuel: nat) -> Seq<u32>
    decreases fuel,
{
    if fuel == 0 || start.is_none() {
        Seq::empty()
    } else {
        let id = start.unwrap();
        let gi = find_group(groups, id, 0);
        seq![id] + (if gi < groups.len() {
            chain(groups, groups[gi].parent, (fuel - 1) as nat)
        } else {
            Seq::empty()
        })
    }
}

/// The groups that a system with the given parent is under, nearest first.
pub open spec fn ancestors(groups: Seq<GroupInfo>, parent: Option<u32>) -> Seq<u32> {
    chain(groups, parent, groups.len() + 1)
}

/// The group `g` is declared, and one of the groups that it names, in its
/// `before` list or in its `after` list, is among `others`.
pub open spec fn group_rule(groups: Seq<GroupInfo>, g: u32, others: Seq<u32>, before: bool) -> bool {
    let gi = find_group(groups, g, 0);
    gi < groups.len() && intersects(
        if before {
            groups[gi].before@
        } else {
            groups[gi].after@
        },
        others,
    )
}

/// One of the groups in `mine` names, in its `before` list or in its
/// `after` list, one of the groups in `others`.
pub open spec fn group_points(groups: Seq<GroupInfo>, mine: Seq<u32>, others: Seq<u32>, before: bool) -> bool {
    exists|k: int| 0 <= k < mine.len() && #[trigger] group_rule(groups, mine[k], others, before)
}

/// Whether the list holds the element.
pub fn list_contains(x: &Vec<u32>, t: u32) -> (r: bool)
    ensures
        r == x@.contains(t),
{
    let mut i: usize = 0;
    while i < x.len()
        invariant
            i <= x.len(),
            forall|a: int| 0 <= a < i ==> x[a] != t,
        decreases x.len() - i,
    {
        if x[i] == t {
            return true;
        }
        i += 1;
    }
    false
}

/// Whether the two lists have an element in common.
pub fn lists_intersect(x: &Vec<u32>, y: &Vec<u32>) -> (r: bool)
    ensures
        r == intersects(x@, y@),
{
    let mut i: usize = 0;
    while i < x.len()
        invariant
            i <= x.len(),
            forall|a: int, b: int| 0 <= a < i && 0 <= b < y.len() ==> x[a] != y[b],
        decreases x.len() - i,
    {
        let mut j: usize = 0;
        while j < y.len()
            invariant
                i < x.len(),
                j <= y.len(),
                forall|b: int| 0 <= b < j ==> x[i as int] != y[b],
            decreases y.len() - j,
        {
            if x[i] == y[j] {
                return true;
            }
            j += 1;
        }
        i += 1;
    }
    false
}

/// Whether two systems share a component type that at least one writes.
pub fn has_conflict(a: &SystemInfo, b: &SystemInfo) -> (r: bool)
    ensures
        r == conflicts(*a, *b),
{
    lists_intersect(&a.writes, &b.writes) || lists_intersect(&a.writes, &b.reads) || lists_intersect(
        &b.writes,
        &a.reads,
    )
}

fn find_group_index(groups: &Vec<GroupInfo>, id: u32) -> (r: usize)
    ensures
        r == find_group(groups@, id, 0),
        r <= groups.len(),
{
    let mut k: usize = 0;
    while k < groups.len()
        invariant
            k <= groups.len(),
            find_group(groups@, id, 0) == find_group(groups@, id, k as int),
        decreases groups.len() - k,
    {
        if groups[k].id == id {
            return k;
        }
        k += 1;
    }
    k
}

fn ancestors_of(groups: &Vec<GroupInfo>, parent: Option<u32>) -> (r: Vec<u32>)
    requires
        groups.len() < usize::MAX,
    ensures
        r@ == ancestors(groups@, parent),
{
    let mut out: Vec<u32> = Vec::new();
    let mut cur = parent;
    let mut fuel: usize = groups.len() + 1;
    proof {
        assert(out@ + chain(groups@, cur, fuel as nat) =~= ancestors(groups@, parent));
    }
    while fuel > 0 && cur.is_some()
        invariant
            out@ + chain(groups@, cur, fuel as nat) == ancestors(groups@, parent),
        decreases fuel,
    {
        let ghost before_out = out@;
        let ghost before_cur = cur;
        let id = cur.unwrap();
        out.push(id);
        let gi = find_group_index(groups, id);
        cur = if gi < groups.len() {
            groups[gi].parent
        } else {
            None
        };
        fuel -= 1;
        proof {
            let tail = chain(groups@, cur, fuel as nat);
            assert(chain(groups@, before_cur, (fuel + 1) as nat) =~= seq![id] + tail);
            assert(out@ + tail =~= before_out + (seq![id] + tail));
        }
    }
    proof {
        assert(chain(groups@, cur, fuel as nat) =~= Seq::<u32>::empty());
        assert(out@ + Seq::<u32>::empty() =~= out@);
    }
    out
}

fn group_points_to(groups: &Vec<GroupInfo>, mine: &Vec<u32>, others: &Vec<u32>, before: bool) -> (r: bool)
    ensures
        r == group_points(groups@, mine@, others@, before),
{
    let mut k: usize = 0;
    while k < mine.len()
        invariant
            k <= mine.len(),
            forall|q: int| 0 <= q < k ==> !#[trigger] group_rule(groups@, mine[q], others@, before),
        decreases mine.len() - k,
    {
        let gi = find_group_index(groups, mine[k]);
        if gi < groups.len() {
            let hit = if before {
                lists_intersect(&groups[gi].before, others)
            } else {
                lists_intersect(&groups[gi].after, others)
            };
            if hit {
                assert(group_rule(groups@, mine[k as int], others@, before));
                return true;
            }
        }
        k += 1;
    }
    false
}

/// The list holds, in ascending order, exactly the nodes on level `k`.
pub open spec fn is_level_list(w: Seq<usize>, level: Seq<usize>, k: int) -> bool {
    &&& forall|i: int| 0 <= i < w.len() ==> (#[trigger] w[i]) < level.len() && level[w[i] as int] == k
    &&& forall|i: int, j: int| 0 <= i < j < w.len() ==> w[i] < w[j]
    &&& forall|v: int| 0 <= v < level.len() && level[v] == k ==> exists|i: int| 0 <= i < w.len() && #[trigger] w[i] == v
}

fn collect_level(level: &Vec<usize>, k: usize) -> (w: Vec<usize>)
    ensures
        is_level_list(w@, level@, k as int),
{
    let mut w: Vec<usize> = Vec::new();
    let mut v: usize = 0;
    while v < level.len()
        invariant
            v <= level.len(),
            forall|i: int| 0 <= i < w.len() ==> (#[trigger] w[i]) < v && level[w[i] as int] == k,
            forall|i: int, j: int| 0 <= i < j < w.len() ==> w[i] < w[j],
            forall|u: int| 0 <= u < v && level[u] == k ==> exists|i: int| 0 <= i < w.len() && #[trigger] w[i] == u,
        decreases level.len() - v,
    {
        if level[v] == k {
            let ghost before = w@;
            w.push(v);
            proof {
                assert forall|u: int| 0 <= u < v + 1 && level[u] == k implies exists|i: int|
                    0 <= i < w.len() && #[trigger] w[i] == u by {
                    if u < v {
                        let i = choose|i: int| 0 <= i < before.len() && #[trigger] before[i] == u;
                        assert(w[i] == u);
                    } else {
                        assert(w[w.len() - 1] == u);
                    }
                }
            }
        }
        v += 1;
    }
    w
}

/// Orders systems by what they and their groups declare.
pub struct Scheduler {
    pub systems: Vec<SystemInfo>,
    pub groups: Vec<GroupInfo>,
    /// The systems of each wavefront, in ascending order; empty until built.
    pub wavefronts: Vec<Vec<usize>>,
    /// The wavefront of each system, once built.
    pub level: Vec<usize>,
    /// The number of wavefronts that no cycle affects.
    pub rounds: usize,
    /// Whether a cycle among the edges left systems for a last wavefront.
    pub cyclic: bool,
}

impl Scheduler {
    /// The systems and the groups can be numbered.
    pub open spec fn wf(&self) -> bool {
        self.systems.len() < usize::MAX && self.groups.len() < usize::MAX
    }

    /// The groups that system `i` is under.
    pub open spec fn anc(&self, i: int) -> Seq<u32> {
        ancestors(self.groups@, self.systems[i].parent)
    }

    /// Both numbers name a system.
    pub open spec fn in_range(&self, a: int, b: int) -> bool {
        0 <= a < self.systems.len() && 0 <= b < self.systems.len()
    }

    /// An edge from `a` to `b` that the groups ask for: the two systems
    /// conflict, and a group over `a` is declared before a group over `b`,
    /// or a group over `b` after a group over `a`.
    pub open spec fn group_edge(&self, a: int, b: int) -> bool {
        &&& self.in_range(a, b)
        &&& a != b
        &&& conflicts(self.systems[a], self.systems[b])
        &&& (group_points(self.groups@, self.anc(a), self.anc(b), true) || group_points(
            self.groups@,
            self.anc(b),
            self.anc(a),
            false,
        ))
    }

    /// An edge from `a` to `b` that the systems ask for: the two systems
    /// conflict, and `a` declares itself before `b`, or `b` after `a`.
    pub open spec fn declared_edge(&self, a: int, b: int) -> bool {
        &&& self.in_range(a, b)
        &&& a != b
        &&& conflicts(self.systems[a], self.systems[b])
        &&& (self.systems[a].before@.contains(self.systems[b].id) || self.systems[b].after@.contains(
            self.systems[a].id,
        ))
    }

    /// An edge from a writer to a reader of one component type, unless the
    /// groups ask for the opposite order.
    pub open spec fn data_edge(&self, a: int, b: int) -> bool {
        &&& self.in_range(a, b)
        &&& a != b
        &&& intersects(self.systems[a].writes@, self.systems[b].reads@)
        &&& !self.group_edge(b, a)
    }

    /// System `a` writes the type at position `i` of its list, system `b`
    /// writes it too, and no system between the two does.
    pub open spec fn links_at(&self, a: int, b: int, i: int) -> bool {
        &&& 0 <= i < self.systems[a].writes@.len()
        &&& self.systems[b].writes@.contains(self.systems[a].writes@[i])
        &&& forall|c: int| a < c < b ==> !(#[trigger] self.systems[c]).writes@.contains(self.systems[a].writes@[i])
    }

    /// `a` and `b` are neighbours among the writers of a component type.
    pub open spec fn chain_link(&self, a: int, b: int) -> bool {
        &&& self.in_range(a, b)
        &&& a < b
        &&& exists|i: int| #[trigger] self.links_at(a, b, i)
    }

    /// An edge from a writer to the next writer of the same component type,
    /// unless the groups ask for the opposite order.
    pub open spec fn chain_edge(&self, a: int, b: int) -> bool {
        self.chain_link(a, b) && !self.group_edge(b, a)
    }

    /// The edges of the dependency graph.
    pub open spec fn edge(&self, a: int, b: int) -> bool {
        self.declared_edge(a, b) || self.group_edge(a, b) || self.data_edge(a, b) || self.chain_edge(a, b)
    }

    /// The edges as a relation on system numbers.
    pub open spec fn edge_relation(&self) -> spec_fn(int, int) -> bool {
        |a: int, b: int| self.edge(a, b)
    }

    /// The wavefronts are built and are those of the systems and groups as
    /// they stand: the levels are the levels of the dependency graph, and
    /// wavefront `k` lists the systems on level `k`.
    pub open spec fn scheduled(&self) -> bool {
        &&& levels_of(
            self.systems.len() as int,
            self.edge_relation(),
            self.level@,
            self.rounds as int,
            self.cyclic,
        )
        &&& self.wavefronts@.len() == self.rounds + if self.cyclic {
            1int
        } else {
            0int
        }
        &&& forall|k: int|
            0 <= k < self.wavefronts@.len() ==> is_level_list((#[trigger] self.wavefronts@[k])@, self.level@, k)
    }

    /// This scheduler is `before` with the cleanup system of one component
    /// added, where another system could be numbered, and with the
    /// wavefronts discarded.
    pub open spec fn cleanup_added(&self, before: &Scheduler, component: u32) -> bool {
        &&& self.wf()
        &&& self.groups == before.groups
        &&& self.wavefronts@.len() == 0
        &&& before.systems@.len() + 1 < usize::MAX ==> {
            &&& self.systems@.len() == before.systems@.len() + 1
            &&& is_cleanup_of(self.systems@.last(), component)
            &&& forall|k: int| 0 <= k < before.systems@.len() ==> #[trigger] self.systems@[k] == before.systems@[k]
        }
    }

    /// A scheduler without systems and groups. Its schedule, that of no
    /// system, is built: it has no wavefront and no cycle.
    pub fn new() -> (s: Self)
        ensures
            s.wf(),
            s.systems@.len() == 0,
            s.groups@.len() == 0,
            s.wavefronts@.len() == 0,
            s.level@.len() == 0,
            s.rounds == 0,
            !s.cyclic,
            s.scheduled(),
    {
        Scheduler {
            systems: Vec::new(),
            groups: Vec::new(),
            wavefronts: Vec::new(),
            level: Vec::new(),
            rounds: 0,
            cyclic: false,
        }
    }

    /// Adds a system by its declaration and discards the wavefronts. A
    /// scheduler that cannot number one more system stays as it is.
    pub fn add_system_info(&mut self, info: SystemInfo) -> (index: usize)
        requires
            old(self).wf(),
        ensures
            final(self).wf(),
            final(self).groups == old(self).groups,
            final(self).wavefronts@.len() == 0,
            index == old(self).systems@.len(),
            old(self).systems@.len() + 1 < usize::MAX ==> final(self).systems@ == old(self).systems@.push(info),
            old(self).systems@.len() + 1 >= usize::MAX ==> final(self).systems@ == old(self).systems@,
    {
        let index = self.systems.len();
        if index < usize::MAX - 1 {
            self.systems.push(info);
        }
        self.wavefronts = Vec::new();
        index
    }

    /// Adds a system by what it declares and discards the wavefronts. The
    /// system comes last, as a user system, and the earlier ones keep their
    /// numbers. A scheduler that cannot number one more system keeps its
    /// systems as they are.
    pub fn add_system<S: System>(&mut self, system: &S) -> (index: usize)
        requires
            old(self).wf(),
        ensures
            final(self).wf(),
            final(self).groups == old(self).groups,
            final(self).wavefronts@.len() == 0,
            index == old(self).systems@.len(),
            old(self).systems@.len() + 1 < usize::MAX ==> final(self).systems@.len() == old(self).systems@.len()
                + 1 && final(self).systems@.drop_last() == old(self).systems@ && final(self).systems@.last().kind
                == SystemKind::User,
            old(self).systems@.len() + 1 >= usize::MAX ==> final(self).systems@ == old(self).systems@,
    {
        let info = describe_system(system);
        let index = self.add_system_info(info);
        proof {
            if old(self).systems@.len() + 1 < usize::MAX {
                assert(self.systems@.drop_last() =~= old(self).systems@);
            }
        }
        index
    }

    /// Adds a group by its declaration and discards the wavefronts.
    pub fn add_group_info(&mut self, info: GroupInfo)
        requires
            old(self).wf(),
        ensures
            final(self).wf(),
            final(self).systems == old(self).systems,
            final(self).wavefronts@.len() == 0,
            old(self).groups@.len() + 1 < usize::MAX ==> final(self).groups@ == old(self).groups@.push(info),
            old(self).groups@.len() + 1 >= usize::MAX ==> final(self).groups@ == old(self).groups@,
    {
        if self.groups.len() < usize::MAX - 1 {
            self.groups.push(info);
        }
        self.wavefronts = Vec::new();
    }

    /// Adds a group by what it declares and discards the wavefronts. The
    /// group comes last and the earlier ones stay as they are. A scheduler
    /// that cannot number one more group keeps its groups as they are.
    pub fn add_group<G: SystemGroup>(&mut self, group: &G)
        requires
            old(self).wf(),
        ensures
            final(self).wf(),
            final(self).systems == old(self).systems,
            final(self).wavefronts@.len() == 0,
            old(self).groups@.len() + 1 < usize::MAX ==> final(self).groups@.len() == old(self).groups@.len() + 1
                && final(self).groups@.drop_last() == old(self).groups@,
            old(self).groups@.len() + 1 >= usize::MAX ==> final(self).groups@ == old(self).groups@,
    {
        let info = describe_group(group);
        self.add_group_info(info);
        proof {
            if old(self).groups@.len() + 1 < usize::MAX {
                assert(self.groups@.drop_last() =~= old(self).groups@);
            }
        }
    }

    /// The number of systems.
    pub fn len(&self) -> (n: usize)
        ensures
            n == self.systems@.len(),
    {
        self.systems.len()
    }

    /// Whether there is no system.
    pub fn is_empty(&self) -> (b: bool)
        ensures
            b == (self.systems@.len() == 0),
    {
        self.systems.len() == 0
    }

    /// The wavefronts as they were last built.
    pub fn wavefronts(&self) -> (w: &Vec<Vec<usize>>)
        ensures
            w == self.wavefronts,
    {
        &self.wavefronts
    }

    /// The declaration of system `index`.
    pub fn system(&self, index: usize) -> (info: &SystemInfo)
        requires
            index < self.systems@.len(),
        ensures
            *info == self.systems@[index as int],
    {
        &self.systems[index]
    }

    /// Runs the given systems wavefront by wavefront, system `i` of the
    /// list standing for the `i`-th system that was added. A position
    /// without a system in the list is passed over.
    pub fn run<S: System>(&self, systems: &Vec<S>, frame: &Frame) {
        let mut k: usize = 0;
        while k < self.wavefronts.len()
            invariant
                k <= self.wavefronts@.len(),
            decreases self.wavefronts@.len() - k,
        {
            let wave = &self.wavefronts[k];
            let mut i: usize = 0;
            while i < wave.len()
                invariant
                    i <= wave@.len(),
                decreases wave@.len() - i,
            {
                let idx = wave[i];
                if idx < systems.len() {
                    systems[idx].run(frame);
                }
                i += 1;
            }
            k += 1;
        }
    }
}

impl Scheduler {
    /// The lists are the ancestor groups of the systems, one list for each.
    pub open spec fn anc_ok(&self, anc: Seq<Vec<u32>>) -> bool {
        &&& anc.len() == self.systems.len()
        &&& forall|i: int| 0 <= i < anc.len() ==> (#[trigger] anc[i])@ == self.anc(i)
    }

    fn all_ancestors(&self) -> (anc: Vec<Vec<u32>>)
        requires
            self.wf(),
        ensures
            self.anc_ok(anc@),
    {
        let mut anc: Vec<Vec<u32>> = Vec::new();
        let mut i: usize = 0;
        while i < self.systems.len()
            invariant
                self.wf(),
                i <= self.systems.len(),
                anc.len() == i,
                forall|q: int| 0 <= q < i ==> (#[trigger] anc[q])@ == self.anc(q),
            decreases self.systems.len() - i,
        {
            anc.push(ancestors_of(&self.groups, self.systems[i].parent));
            i += 1;
        }
        anc
    }

    fn has_group_edge(&self, anc: &Vec<Vec<u32>>, a: usize, b: usize) -> (r: bool)
        requires
            self.anc_ok(anc@),
            a < self.systems.len(),
            b < self.systems.len(),
        ensures
            r == self.group_edge(a as int, b as int),
    {
        if a == b {
            return false;
        }
        if !has_conflict(&self.systems[a], &self.systems[b]) {
            return false;
        }
        group_points_to(&self.groups, &anc[a], &anc[b], true) || group_points_to(
            &self.groups,
            &anc[b],
            &anc[a],
            false,
        )
    }

    fn has_declared_edge(&self, a: usize, b: usize) -> (r: bool)
        requires
            a < self.systems.len(),
            b < self.systems.len(),
        ensures
            r == self.declared_edge(a as int, b as int),
    {
        if a == b {
            return false;
        }
        if !has_conflict(&self.systems[a], &self.systems[b]) {
            return false;
        }
        list_contains(&self.systems[a].before, self.systems[b].id) || list_contains(
            &self.systems[b].after,
            self.systems[a].id,
        )
    }

    fn has_data_edge(&self, anc: &Vec<Vec<u32>>, a: usize, b: usize) -> (r: bool)
        requires
            self.anc_ok(anc@),
            a < self.systems.len(),
            b < self.systems.len(),
        ensures
            r == self.data_edge(a as int, b as int),
    {
        if a == b {
            return false;
        }
        lists_intersect(&self.systems[a].writes, &self.systems[b].reads) && !self.has_group_edge(anc, b, a)
    }

    /// Whether a system strictly between `a` and `b` writes the type `t`.
    fn writers_between(&self, a: usize, b: usize, t: u32) -> (r: bool)
        requires
            a < b,
            b < self.systems.len(),
        ensures
            !r == (forall|c: int| a < c < b ==> !(#[trigger] self.systems[c]).writes@.contains(t)),
    {
        let mut c: usize = a + 1;
        while c < b
            invariant
                a < c <= b,
                b < self.systems.len(),
                forall|q: int| a < q < c ==> !(#[trigger] self.systems[q]).writes@.contains(t),
            decreases b - c,
        {
            if list_contains(&self.systems[c].writes, t) {
                return true;
            }
            c += 1;
        }
        false
    }

    fn has_chain_link(&self, a: usize, b: usize) -> (r: bool)
        requires
            a < self.systems.len(),
            b < self.systems.len(),
        ensures
            r == self.chain_link(a as int, b as int),
    {
        if a >= b {
            return false;
        }
        let mut i: usize = 0;
        while i < self.systems[a].writes.len()
            invariant
                a < b,
                b < self.systems.len(),
                i <= self.systems[a as int].writes@.len(),
                forall|q: int| 0 <= q < i ==> !#[trigger] self.links_at(a as int, b as int, q),
            decreases self.systems[a as int].writes@.len() - i,
        {
            let t = self.systems[a].writes[i];
            if list_contains(&self.systems[b].writes, t) && !self.writers_between(a, b, t) {
                assert(self.links_at(a as int, b as int, i as int));
                return true;
            }
            i += 1;
        }
        false
    }

    fn is_edge(&self, anc: &Vec<Vec<u32>>, a: usize, b: usize) -> (r: bool)
        requires
            self.anc_ok(anc@),
            a < self.systems.len(),
            b < self.systems.len(),
        ensures
            r == self.edge(a as int, b as int),
    {
        if self.has_declared_edge(a, b) {
            return true;
        }
        if self.has_group_edge(anc, a, b) {
            return true;
        }
        if self.has_data_edge(anc, a, b) {
            return true;
        }
        self.has_chain_link(a, b) && !self.has_group_edge(anc, b, a)
    }

    /// The dependency graph of the systems.
    fn build_graph(&self) -> (g: DependencyGraph)
        requires
            self.wf(),
        ensures
            g.wf(),
            g.n == self.systems.len(),
            forall|x: int, y: int| #[trigger] g.edge(x, y) == self.edge(x, y),
    {
        let n = self.systems.len();
        let anc = self.all_ancestors();
        let mut g = DependencyGraph::new(n);
        let mut a: usize = 0;
        while a < n
            invariant
                self.anc_ok(anc@),
                n == self.systems.len(),
                a <= n,
                g.wf(),
                g.n == n,
                forall|x: int, y: int| #[trigger] g.edge(x, y) == (x < a && self.edge(x, y)),
            decreases n - a,
        {
            let mut b: usize = 0;
            while b < n
                invariant
                    self.anc_ok(anc@),
                    n == self.systems.len(),
                    a < n,
                    b <= n,
                    g.wf(),
                    g.n == n,
                    forall|x: int, y: int|
                        #[trigger] g.edge(x, y) == ((x < a || (x == a && y < b)) && self.edge(x, y)),
                decreases n - b,
            {
                if self.is_edge(&anc, a, b) {
                    g.add_edge(a, b);
                }
                b += 1;
            }
            a += 1;
        }
        g
    }

    /// Levels the dependency graph and lists the systems of every level.
    fn compute_wavefronts(&self) -> (out: (Vec<Vec<usize>>, Vec<usize>, usize, bool))
        requires
            self.wf(),
        ensures
            levels_of(self.systems.len() as int, self.edge_relation(), out.1@, out.2 as int, out.3),
            out.0@.len() == out.2 + if out.3 {
                1int
            } else {
                0int
            },
            forall|k: int| 0 <= k < out.0@.len() ==> is_level_list((#[trigger] out.0@[k])@, out.1@, k),
    {
        let g = self.build_graph();
        let lv = g.topological_levels();
        proof {
            assert(g.edge_relation() =~= self.edge_relation());
        }
        let total: usize = if lv.cyclic {
            lv.rounds + 1
        } else {
            lv.rounds
        };
        let mut waves: Vec<Vec<usize>> = Vec::new();
        let mut k: usize = 0;
        while k < total
            invariant
                k <= total,
                waves.len() == k,
                forall|q: int| 0 <= q < k ==> is_level_list((#[trigger] waves@[q])@, lv.level@, q),
            decreases total - k,
        {
            waves.push(collect_level(&lv.level, k));
            k += 1;
        }
        (waves, lv.level, lv.rounds, lv.cyclic)
    }

    /// Builds the wavefronts from the systems and groups as they stand.
    pub fn build_wavefronts(&mut self)
        requires
            old(self).wf(),
        ensures
            final(self).wf(),
            final(self).systems == old(self).systems,
            final(self).groups == old(self).groups,
            final(self).scheduled(),
    {
        let (waves, level, rounds, cyclic) = self.compute_wavefronts();
        self.wavefronts = waves;
        self.level = level;
        self.rounds = rounds;
        self.cyclic = cyclic;
        proof {
            assert(self.edge_relation() =~= old(self).edge_relation()) by {
                assert forall|a: int, b: int| self.edge(a, b) == old(self).edge(a, b) by {
                    self.lemma_same_edges(old(self), a, b);
                }
            }
        }
    }

    /// Two schedulers with the same systems and groups have the same edges.
    pub proof fn lemma_same_edges(&self, other: &Scheduler, a: int, b: int)
        requires
            self.systems == other.systems,
            self.groups == other.groups,
        ensures
            self.edge(a, b) == other.edge(a, b),
    {
        assert(self.group_edge(a, b) == other.group_edge(a, b));
        assert(self.group_edge(b, a) == other.group_edge(b, a));
        assert(self.declared_edge(a, b) == other.declared_edge(a, b));
        assert(self.data_edge(a, b) == other.data_edge(a, b));
        assert forall|i: int| self.links_at(a, b, i) == other.links_at(a, b, i) by {}
        assert(self.chain_link(a, b) == other.chain_link(a, b));
    }

    /// Wherever the graph has an edge into a system on a wavefront that no
    /// cycle affects, the edge's source is on an earlier wavefront. The
    /// edges include every order that a system or a group declares between
    /// two conflicting systems.
    pub proof fn lemma_order_respected(&self, a: int, b: int)
        requires
            self.scheduled(),
            self.edge(a, b),
            self.level[b] < self.rounds,
        ensures
            self.level[a] < self.level[b],
    {
        let e = self.edge_relation();
        assert(preds_earlier(e, self.level@, b));
        assert(e(a, b));
    }

    /// Without a cycle, the wavefronts respect every order that a system or
    /// a group declares between two conflicting systems: the system that is
    /// to run first is on an earlier wavefront.
    pub proof fn lemma_declared_order_respected(&self, a: int, b: int)
        requires
            self.scheduled(),
            !self.cyclic,
            self.declared_edge(a, b) || self.group_edge(a, b),
        ensures
            self.level[a] < self.level[b],
    {
        self.lemma_order_respected(a, b);
    }

    /// A system that writes a component type and another that reads it are
    /// never on the same wavefront, unless a cycle put them on the last.
    pub proof fn lemma_writer_reader_apart(&self, w: int, r: int)
        requires
            self.scheduled(),
            self.in_range(w, r),
            w != r,
            intersects(self.systems[w].writes@, self.systems[r].reads@),
            self.level[w] < self.rounds || self.level[r] < self.rounds,
        ensures
            self.level[w] != self.level[r],
    {
        if self.group_edge(r, w) {
            if self.level[w] < self.rounds {
                self.lemma_order_respected(r, w);
            }
        } else {
            assert(self.data_edge(w, r));
            if self.level[r] < self.rounds {
                self.lemma_order_respected(w, r);
            }
        }
    }

    /// No group asks to run a later writer of a component type before an
    /// earlier one.
    pub open spec fn writers_unopposed(&self) -> bool {
        forall|x: int, y: int| x < y && #[trigger] self.chain_link(x, y) ==> !self.group_edge(y, x)
    }

    /// Two systems that write the same component type are on different
    /// wavefronts, the one added first on the earlier, where no group
    /// opposes the order in which the writers were added and no cycle
    /// affects the wavefront of the later one.
    pub proof fn lemma_writers_apart(&self, a: int, b: int, t: u32)
        requires
            self.scheduled(),
            self.in_range(a, b),
            a < b,
            self.systems[a].writes@.contains(t),
            self.systems[b].writes@.contains(t),
            self.writers_unopposed(),
            self.level[b] < self.rounds,
        ensures
            self.level[a] < self.level[b],
        decreases b - a,
    {
        if forall|c: int| a < c < b ==> !(#[trigger] self.systems[c]).writes@.contains(t) {
            let i = choose|i: int| 0 <= i < self.systems[a].writes@.len() && self.systems[a].writes@[i] == t;
            assert(self.links_at(a, b, i));
            assert(self.chain_link(a, b));
            assert(self.chain_edge(a, b));
            self.lemma_order_respected(a, b);
        } else {
            let c = choose|c: int| a < c < b && (#[trigger] self.systems[c]).writes@.contains(t);
            self.lemma_writers_apart(c, b, t);
            self.lemma_writers_apart(a, c, t);
        }
    }

    /// Two systems on the same wavefront do not conflict: they share no
    /// component type that one of them writes. This holds of every
    /// wavefront that no cycle affects, where no group opposes the order in
    /// which the writers of a type were added.
    pub proof fn lemma_wavefront_conflict_free(&self, a: int, b: int)
        requires
            self.scheduled(),
            self.in_range(a, b),
            a != b,
            self.level[a] == self.level[b],
            self.level[a] < self.rounds,
            self.writers_unopposed(),
        ensures
            !conflicts(self.systems[a], self.systems[b]),
    {
        let sa = self.systems[a];
        let sb = self.systems[b];
        if intersects(sa.writes@, sb.reads@) {
            self.lemma_writer_reader_apart(a, b);
        }
        if intersects(sb.writes@, sa.reads@) {
            self.lemma_writer_reader_apart(b, a);
        }
        if intersects(sa.writes@, sb.writes@) {
            let (i, j) = choose|i: int, j: int|
                #![trigger sa.writes@[i], sb.writes@[j]]
                0 <= i < sa.writes@.len() && 0 <= j < sb.writes@.len() && sa.writes@[i] == sb.writes@[j];
            let t = sa.writes@[i];
            assert(sb.writes@[j] == t);
            if a < b {
                self.lemma_writers_apart(a, b, t);
            } else {
                self.lemma_writers_apart(b, a, t);
            }
        }
    }

    /// Every system is on exactly one wavefront, once.
    pub proof fn lemma_wavefronts_partition(&self, v: int)
        requires
            self.scheduled(),
            0 <= v < self.systems.len(),
        ensures
            0 <= self.level[v] < self.wavefronts@.len(),
            self.wavefronts@[self.level[v] as int]@.contains(v as usize),
            forall|k: int, i: int|
                0 <= k < self.wavefronts@.len() && 0 <= i < self.wavefronts@[k]@.len()
                    && #[trigger] self.wavefronts@[k]@[i] == v ==> k == self.level[v],
    {
        let k = self.level[v] as int;
        assert(is_level_list(self.wavefronts@[k]@, self.level@, k));
        let i = choose|i: int| 0 <= i < self.wavefronts@[k]@.len() && #[trigger] self.wavefronts@[k]@[i] == v;
        assert(self.wavefronts@[k]@[i] == v as usize);
        assert forall|q: int, i: int|
            0 <= q < self.wavefronts@.len() && 0 <= i < self.wavefronts@[q]@.len()
                && #[trigger] self.wavefronts@[q]@[i] == v implies q == self.level[v] by {
            assert(is_level_list(self.wavefronts@[q]@, self.level@, q));
        }
    }
}

impl Default for Scheduler {
    fn default() -> (s: Self)
        ensures
            s.wf(),
            s.systems@.len() == 0,
            s.groups@.len() == 0,
            s.wavefronts@.len() == 0,
            s.level@.len() == 0,
            s.rounds == 0,
            !s.cyclic,
            s.scheduled(),
    {
        Scheduler::new()
    }
}

} // verus!
