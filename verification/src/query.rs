//! Queries: which slots hold every required component, none of the
//! excluded ones, and a freshly written value of every changed one.
//!
//! A query never looks at a slot that the masks rule out. At the root and
//! in a page it intersects the presence masks of the required components
//! with the changed masks of the changed ones and takes away what the
//! fullness masks of the excluded components promise to be occupied; in a
//! chunk the same arithmetic over the leaf masks is exact.

use crate::bits::{bit_set, lemma_full_mask, lemma_mask_and, lemma_mask_not};
use crate::scan::{chunk_of, first_match, hit_at, offset_of, page_of, MaskTree};
use crate::scheduler::list_contains;
use crate::storage::Level;
use crate::system::{SystemInfo, SystemKind};
use crate::world::World;
use vstd::prelude::*;

verus! {

/// The four sets of component types that make a query.
pub struct Query {
    /// A slot must hold each of these.
    pub required: Vec<u32>,
    /// A slot must hold none of these.
    pub excluded: Vec<u32>,
    /// A slot must hold each of these, written since the last clear.
    pub changed: Vec<u32>,
    /// Those of the required types that the system writes.
    pub mutable: Vec<u32>,
}

/// The first `n` of the components hold a value at the slot.
pub open spec fn all_have<T>(world: &World<T>, ids: Seq<u32>, n: int, s: int, p: int, c: int) -> bool {
    forall|k: int| 0 <= k < n ==> #[trigger] world.has3(ids[k], s, p, c)
}

/// None of the first `n` of the components holds a value at the slot.
pub open spec fn none_have<T>(world: &World<T>, ids: Seq<u32>, n: int, s: int, p: int, c: int) -> bool {
    forall|k: int| 0 <= k < n ==> !#[trigger] world.has3(ids[k], s, p, c)
}

/// The first `n` of the components hold, at the slot, a value written
/// since the last clear.
pub open spec fn all_marked<T>(world: &World<T>, ids: Seq<u32>, n: int, s: int, p: int, c: int) -> bool {
    forall|k: int| 0 <= k < n ==> #[trigger] world.marked3(ids[k], s, p, c)
}

/// Bit `b` of the presence mask of the node is set in each of the first
/// `n` of the components.
pub open spec fn all_present<T>(world: &World<T>, ids: Seq<u32>, n: int, level: Level, b: int) -> bool {
    forall|k: int| 0 <= k < n ==> bit_set(world.node_masks(#[trigger] ids[k], level).presence, b)
}

/// Bit `b` of the presence mask and of the changed mask of the node are
/// set in each of the first `n` of the components.
pub open spec fn all_written<T>(world: &World<T>, ids: Seq<u32>, n: int, level: Level, b: int) -> bool {
    forall|k: int|
        0 <= k < n ==> bit_set(world.node_masks(#[trigger] ids[k], level).presence, b) && bit_set(
            world.node_masks(ids[k], level).changed,
            b,
        )
}

/// Bit `b` of the fullness mask of the node is clear in each of the first
/// `n` of the components.
pub open spec fn none_full<T>(world: &World<T>, ids: Seq<u32>, n: int, level: Level, b: int) -> bool {
    forall|k: int| 0 <= k < n ==> !bit_set(world.node_masks(#[trigger] ids[k], level).fullness, b)
}

/// Bit `b` of the node passes the first `a` required, the first `w` changed
/// and the first `d` excluded components of the query.
pub open spec fn node_passes<T>(world: &World<T>, q: &Query, a: int, w: int, d: int, level: Level, b: int) -> bool {
    &&& all_present(world, q.required@, a, level, b)
    &&& all_written(world, q.changed@, w, level, b)
    &&& none_full(world, q.excluded@, d, level, b)
}

impl Query {
    /// What the masks of a node leave of its bit `b`: the bit is set in the
    /// presence mask of every required component, in the presence and the
    /// changed mask of every changed one, and clear in the fullness mask of
    /// every excluded one.
    pub open spec fn node_bit<T>(&self, world: &World<T>, level: Level, b: int) -> bool {
        node_passes(
            world,
            self,
            self.required@.len() as int,
            self.changed@.len() as int,
            self.excluded@.len() as int,
            level,
            b,
        )
    }

    /// A query that asks for nothing: every slot matches it.
    pub fn new() -> (q: Self)
        ensures
            q.required@.len() == 0,
            q.excluded@.len() == 0,
            q.changed@.len() == 0,
            q.mutable@.len() == 0,
    {
        Query { required: Vec::new(), excluded: Vec::new(), changed: Vec::new(), mutable: Vec::new() }
    }

    /// The slot matches the query in the world.
    pub open spec fn matches3<T>(&self, world: &World<T>, s: int, p: int, c: int) -> bool {
        &&& all_have(world, self.required@, self.required@.len() as int, s, p, c)
        &&& none_have(world, self.excluded@, self.excluded@.len() as int, s, p, c)
        &&& all_marked(world, self.changed@, self.changed@.len() as int, s, p, c)
    }

    /// The slot with the given index matches the query in the world.
    pub open spec fn matches<T>(&self, world: &World<T>, index: int) -> bool {
        0 <= index < 262144 && self.matches3(world, page_of(index), chunk_of(index), offset_of(index))
    }

    /// The declaration of a user system that runs this query: it writes the
    /// mutable types and reads the other types that it requires, whether
    /// present or changed.
    pub fn declare(&self, id: u32) -> (info: SystemInfo)
        ensures
            info.id == id,
            info.kind == SystemKind::User,
            info.writes@ == self.mutable@,
            info.reads@ == without(self.required@, self.mutable@) + without(self.changed@, self.mutable@),
            info.before@.len() == 0,
            info.after@.len() == 0,
            info.parent.is_none(),
    {
        let mut info = SystemInfo::new(id);
        let mut k: usize = 0;
        while k < self.mutable.len()
            invariant
                k <= self.mutable@.len(),
                info.id == id,
                info.kind == SystemKind::User,
                info.reads@.len() == 0,
                info.before@.len() == 0,
                info.after@.len() == 0,
                info.parent.is_none(),
                info.writes@ == self.mutable@.take(k as int),
            decreases self.mutable@.len() - k,
        {
            info.writes.push(self.mutable[k]);
            proof {
                assert(self.mutable@.take(k as int + 1) =~= self.mutable@.take(k as int).push(self.mutable@[k as int]));
            }
            k += 1;
        }
        proof {
            assert(self.mutable@.take(self.mutable@.len() as int) =~= self.mutable@);
            assert(info.reads@ =~= without(self.required@.take(0), self.mutable@));
        }
        let mut k: usize = 0;
        while k < self.required.len()
            invariant
                k <= self.required@.len(),
                info.id == id,
                info.kind == SystemKind::User,
                info.before@.len() == 0,
                info.after@.len() == 0,
                info.parent.is_none(),
                info.writes@ == self.mutable@,
                info.reads@ == without(self.required@.take(k as int), self.mutable@),
            decreases self.required@.len() - k,
        {
            let t = self.required[k];
            proof {
                let more = self.required@.take(k as int + 1);
                assert(more.drop_last() =~= self.required@.take(k as int));
                assert(more.last() == t);
            }
            if !list_contains(&self.mutable, t) {
                info.reads.push(t);
            }
            k += 1;
        }
        let ghost first = info.reads@;
        proof {
            assert(self.required@.take(self.required@.len() as int) =~= self.required@);
            assert(info.reads@ =~= first + without(self.changed@.take(0), self.mutable@));
        }
        let mut k: usize = 0;
        while k < self.changed.len()
            invariant
                k <= self.changed@.len(),
                info.id == id,
                info.kind == SystemKind::User,
                info.before@.len() == 0,
                info.after@.len() == 0,
                info.parent.is_none(),
                info.writes@ == self.mutable@,
                first == without(self.required@, self.mutable@),
                info.reads@ == first + without(self.changed@.take(k as int), self.mutable@),
            decreases self.changed@.len() - k,
        {
            let t = self.changed[k];
            let ghost before = without(self.changed@.take(k as int), self.mutable@);
            proof {
                let more = self.changed@.take(k as int + 1);
                assert(more.drop_last() =~= self.changed@.take(k as int));
                assert(more.last() == t);
            }
            if !list_contains(&self.mutable, t) {
                info.reads.push(t);
                proof {
                    assert(info.reads@ =~= first + before.push(t));
                }
            }
            k += 1;
        }
        proof {
            assert(self.changed@.take(self.changed@.len() as int) =~= self.changed@);
        }
        info
    }
}

/// The elements of `list` that are not in `other`, in their order.
pub open spec fn without(list: Seq<u32>, other: Seq<u32>) -> Seq<u32>
    decreases list.len(),
{
    if list.len() == 0 {
        Seq::empty()
    } else {
        let rest = without(list.drop_last(), other);
        if other.contains(list.last()) {
            rest
        } else {
            rest.push(list.last())
        }
    }
}

/// A query in a world, as a tree to search.
pub struct QueryView<'a, T> {
    pub world: &'a World<T>,
    pub query: &'a Query,
}

/// The slot passes the first `a` required, the first `b` changed and the
/// first `d` excluded components of the query.
pub open spec fn passes<T>(world: &World<T>, q: &Query, a: int, b: int, d: int, s: int, p: int, c: int) -> bool {
    &&& all_have(world, q.required@, a, s, p, c)
    &&& all_marked(world, q.changed@, b, s, p, c)
    &&& none_have(world, q.excluded@, d, s, p, c)
}

impl<'a, T> QueryView<'a, T> {
    /// The masks of one node of every storage that the query names, taken
    /// together: the presence masks of the required components and the
    /// presence and changed masks of the changed ones intersected, less
    /// the fullness masks of the excluded ones. No slot that matches is
    /// lost by it; at a chunk it is the mask of the slots that match.
    pub fn combined_mask(&self, level: Level) -> (acc: u64)
        requires
            self.world.wf(),
            level.valid(),
        ensures
            forall|b: int| 0 <= b < 64 ==> (bit_set(acc, b) <==> #[trigger] self.query.node_bit(self.world, level, b)),
            forall|s: int, p: int, c: int|
                level.covers(s, p, c) && #[trigger] self.query.matches3(self.world, s, p, c) ==> bit_set(
                    acc,
                    level.bit_of(s, p, c),
                ),
            level is Chunk ==> forall|s: int, p: int, c: int|
                level.covers(s, p, c) && bit_set(acc, c) ==> #[trigger] self.query.matches3(self.world, s, p, c),
    {
        let world = self.world;
        let q = self.query;
        let ghost nr = q.required@.len() as int;
        let ghost nc = q.changed@.len() as int;
        let ghost ne = q.excluded@.len() as int;
        let mut acc: u64 = u64::MAX;
        proof {
            lemma_full_mask(acc);
        }
        let mut k: usize = 0;
        let ghost mut done: int = 0;
        while k < q.required.len()
            invariant
                world.wf(),
                level.valid(),
                k <= q.required@.len(),
                done == k,
                forall|b: int| 0 <= b < 64 ==> (bit_set(acc, b) <==> #[trigger] node_passes(world, q, done, 0, 0, level, b)),
                forall|s: int, p: int, c: int|
                    level.covers(s, p, c) && #[trigger] passes(world, q, done, 0, 0, s, p, c) ==> bit_set(
                        acc,
                        level.bit_of(s, p, c),
                    ),
                level is Chunk ==> forall|s: int, p: int, c: int|
                    level.covers(s, p, c) && bit_set(acc, c) ==> #[trigger] passes(world, q, done, 0, 0, s, p, c),
            decreases q.required@.len() - k,
        {
            let id = q.required[k];
            let m = world.masks_at(id, level);
            let ghost before = acc;
            let ghost k0 = done;
            acc = acc & m.presence;
            k += 1;
            proof {
                done = done + 1;
                lemma_mask_and(before, m.presence);
                assert forall|b: int| 0 <= b < 64 implies (bit_set(acc, b) <==> #[trigger] node_passes(
                    world,
                    q,
                    done,
                    0,
                    0,
                    level,
                    b,
                )) by {
                    assert(bit_set(before, b) <==> node_passes(world, q, k0, 0, 0, level, b));
                    assert(m == world.node_masks(q.required@[k0], level));
                }
                assert forall|s: int, p: int, c: int|
                    level.covers(s, p, c) && #[trigger] passes(world, q, done, 0, 0, s, p, c) implies bit_set(
                    acc,
                    level.bit_of(s, p, c),
                ) by {
                    assert(passes(world, q, k0, 0, 0, s, p, c));
                    assert(world.has3(q.required@[k0], s, p, c));
                    assert(level.sound(m, world.has3(id, s, p, c), world.marked3(id, s, p, c), s, p, c));
                }
                if level is Chunk {
                    assert forall|s: int, p: int, c: int| level.covers(s, p, c) && bit_set(acc, c) implies #[trigger] passes(
                        world,
                        q,
                        done,
                        0,
                        0,
                        s,
                        p,
                        c,
                    ) by {
                        assert(bit_set(before, c));
                        assert(passes(world, q, k0, 0, 0, s, p, c));
                        assert(level.sound(m, world.has3(id, s, p, c), world.marked3(id, s, p, c), s, p, c));
                    }
                }
            }
        }
        proof {
            assert forall|s: int, p: int, c: int| #[trigger]
                passes(world, q, nr, 0, 0, s, p, c) == passes(world, q, done, 0, 0, s, p, c) by {}
            assert forall|b: int| #[trigger]
                node_passes(world, q, nr, 0, 0, level, b) == node_passes(world, q, done, 0, 0, level, b) by {}
            done = 0;
        }
        let mut k: usize = 0;
        while k < q.changed.len()
            invariant
                world.wf(),
                level.valid(),
                k <= q.changed@.len(),
                done == k,
                nr == q.required@.len(),
                forall|b: int| 0 <= b < 64 ==> (bit_set(acc, b) <==> #[trigger] node_passes(world, q, nr, done, 0, level, b)),
                forall|s: int, p: int, c: int|
                    level.covers(s, p, c) && #[trigger] passes(world, q, nr, done, 0, s, p, c) ==> bit_set(
                        acc,
                        level.bit_of(s, p, c),
                    ),
                level is Chunk ==> forall|s: int, p: int, c: int|
                    level.covers(s, p, c) && bit_set(acc, c) ==> #[trigger] passes(world, q, nr, done, 0, s, p, c),
            decreases q.changed@.len() - k,
        {
            let id = q.changed[k];
            let m = world.masks_at(id, level);
            let ghost before = acc;
            let both = m.changed & m.presence;
            let ghost k0 = done;
            acc = acc & both;
            k += 1;
            proof {
                done = done + 1;
                lemma_mask_and(m.changed, m.presence);
                lemma_mask_and(before, both);
                assert forall|b: int| 0 <= b < 64 implies (bit_set(acc, b) <==> #[trigger] node_passes(
                    world,
                    q,
                    nr,
                    done,
                    0,
                    level,
                    b,
                )) by {
                    assert(bit_set(before, b) <==> node_passes(world, q, nr, k0, 0, level, b));
                    assert(m == world.node_masks(q.changed@[k0], level));
                }
                assert forall|s: int, p: int, c: int|
                    level.covers(s, p, c) && #[trigger] passes(world, q, nr, done, 0, s, p, c) implies bit_set(
                    acc,
                    level.bit_of(s, p, c),
                ) by {
                    assert(passes(world, q, nr, k0, 0, s, p, c));
                    assert(world.marked3(q.changed@[k0], s, p, c));
                    assert(level.sound(m, world.has3(id, s, p, c), world.marked3(id, s, p, c), s, p, c));
                }
                if level is Chunk {
                    assert forall|s: int, p: int, c: int| level.covers(s, p, c) && bit_set(acc, c) implies #[trigger] passes(
                        world,
                        q,
                        nr,
                        done,
                        0,
                        s,
                        p,
                        c,
                    ) by {
                        assert(bit_set(before, c));
                        assert(bit_set(both, c));
                        assert(passes(world, q, nr, k0, 0, s, p, c));
                        assert(level.sound(m, world.has3(id, s, p, c), world.marked3(id, s, p, c), s, p, c));
                    }
                }
            }
        }
        proof {
            assert forall|s: int, p: int, c: int| #[trigger]
                passes(world, q, nr, nc, 0, s, p, c) == passes(world, q, nr, done, 0, s, p, c) by {}
            assert forall|b: int| #[trigger]
                node_passes(world, q, nr, nc, 0, level, b) == node_passes(world, q, nr, done, 0, level, b) by {}
            done = 0;
        }
        let mut k: usize = 0;
        while k < q.excluded.len()
            invariant
                world.wf(),
                level.valid(),
                k <= q.excluded@.len(),
                done == k,
                nr == q.required@.len(),
                nc == q.changed@.len(),
                forall|b: int| 0 <= b < 64 ==> (bit_set(acc, b) <==> #[trigger] node_passes(world, q, nr, nc, done, level, b)),
                forall|s: int, p: int, c: int|
                    level.covers(s, p, c) && #[trigger] passes(world, q, nr, nc, done, s, p, c) ==> bit_set(
                        acc,
                        level.bit_of(s, p, c),
                    ),
                level is Chunk ==> forall|s: int, p: int, c: int|
                    level.covers(s, p, c) && bit_set(acc, c) ==> #[trigger] passes(world, q, nr, nc, done, s, p, c),
            decreases q.excluded@.len() - k,
        {
            let id = q.excluded[k];
            let m = world.masks_at(id, level);
            let ghost before = acc;
            let free = !m.fullness;
            let ghost k0 = done;
            acc = acc & free;
            k += 1;
            proof {
                done = done + 1;
                lemma_mask_not(m.fullness);
                lemma_mask_and(before, free);
                assert forall|b: int| 0 <= b < 64 implies (bit_set(acc, b) <==> #[trigger] node_passes(
                    world,
                    q,
                    nr,
                    nc,
                    done,
                    level,
                    b,
                )) by {
                    assert(bit_set(before, b) <==> node_passes(world, q, nr, nc, k0, level, b));
                    assert(m == world.node_masks(q.excluded@[k0], level));
                }
                assert forall|s: int, p: int, c: int|
                    level.covers(s, p, c) && #[trigger] passes(world, q, nr, nc, done, s, p, c) implies bit_set(
                    acc,
                    level.bit_of(s, p, c),
                ) by {
                    assert(passes(world, q, nr, nc, k0, s, p, c));
                    assert(!world.has3(q.excluded@[k0], s, p, c));
                    assert(level.sound(m, world.has3(id, s, p, c), world.marked3(id, s, p, c), s, p, c));
                }
                if level is Chunk {
                    assert forall|s: int, p: int, c: int| level.covers(s, p, c) && bit_set(acc, c) implies #[trigger] passes(
                        world,
                        q,
                        nr,
                        nc,
                        done,
                        s,
                        p,
                        c,
                    ) by {
                        assert(bit_set(before, c));
                        assert(bit_set(free, c));
                        assert(passes(world, q, nr, nc, k0, s, p, c));
                        assert(level.sound(m, world.has3(id, s, p, c), world.marked3(id, s, p, c), s, p, c));
                    }
                }
            }
        }
        proof {
            assert forall|b: int| 0 <= b < 64 implies (bit_set(acc, b) <==> #[trigger] q.node_bit(world, level, b)) by {
                assert(bit_set(acc, b) <==> node_passes(world, q, nr, nc, done, level, b));
            }
            assert forall|s: int, p: int, c: int|
                level.covers(s, p, c) && #[trigger] q.matches3(world, s, p, c) implies bit_set(
                acc,
                level.bit_of(s, p, c),
            ) by {
                assert(passes(world, q, nr, nc, done, s, p, c));
            }
            if level is Chunk {
                assert forall|s: int, p: int, c: int| level.covers(s, p, c) && bit_set(acc, c) implies #[trigger] q.matches3(
                    world,
                    s,
                    p,
                    c,
                ) by {
                    assert(passes(world, q, nr, nc, done, s, p, c));
                }
            }
        }
        acc
    }
}

impl<'a, T> MaskTree for QueryView<'a, T> {
    open spec fn hit(&self, s: int, p: int, c: int) -> bool {
        self.query.matches3(self.world, s, p, c)
    }

    open spec fn scan_wf(&self) -> bool {
        self.world.wf()
    }

    fn top_mask(&self) -> (m: u64) {
        self.combined_mask(Level::Top)
    }

    fn page_mask(&self, s: u32) -> (m: u64) {
        self.combined_mask(Level::Page(s))
    }

    fn chunk_mask(&self, s: u32, p: u32) -> (m: u64) {
        self.combined_mask(Level::Chunk(s, p))
    }
}

impl<T> World<T> {
    /// The lowest slot at or above `from` that matches the query, if there
    /// is one.
    pub fn query_next(&self, query: &Query, from: u32) -> (r: Option<u32>)
        requires
            self.wf(),
        ensures
            r.is_some() ==> from <= r.unwrap() && query.matches(self, r.unwrap() as int) && forall|j: int|
                from <= j < r.unwrap() ==> !query.matches(self, j),
            r.is_none() ==> forall|j: int| from <= j ==> !query.matches(self, j),
    {
        let view = QueryView { world: self, query };
        let r = first_match(&view, from);
        proof {
            assert forall|j: int| 0 <= j < 262144 implies #[trigger] hit_at(&view, j) == query.matches(self, j) by {}
            if r.is_some() {
                assert(hit_at(&view, r.unwrap() as int));
                assert forall|j: int| from <= j < r.unwrap() implies !query.matches(self, j) by {
                    assert(!hit_at(&view, j));
                }
            } else {
                assert forall|j: int| from <= j implies !query.matches(self, j) by {
                    if j < 262144 {
                        assert(!hit_at(&view, j));
                    }
                }
            }
        }
        r
    }

    /// The slots that match the query, in ascending order.
    pub fn query(&self, query: &Query) -> (out: Vec<u32>)
        requires
            self.wf(),
        ensures
            forall|k: int| 0 <= k < out@.len() ==> query.matches(self, (#[trigger] out@[k]) as int),
            forall|a: int, b: int| 0 <= a < b < out@.len() ==> out@[a] < out@[b],
            forall|i: int| query.matches(self, i) ==> exists|k: int| 0 <= k < out@.len() && #[trigger] out@[k] == i,
    {
        let mut out: Vec<u32> = Vec::new();
        let mut from: u32 = 0;
        loop
            invariant
                self.wf(),
                0 <= from <= 262144,
                forall|k: int| 0 <= k < out@.len() ==> (#[trigger] out@[k]) < from && query.matches(self, out@[k] as int),
                forall|a: int, b: int| 0 <= a < b < out@.len() ==> out@[a] < out@[b],
                forall|i: int|
                    0 <= i < from && query.matches(self, i) ==> exists|k: int|
                        0 <= k < out@.len() && #[trigger] out@[k] == i,
            ensures
                forall|k: int| 0 <= k < out@.len() ==> query.matches(self, (#[trigger] out@[k]) as int),
                forall|a: int, b: int| 0 <= a < b < out@.len() ==> out@[a] < out@[b],
                forall|i: int| query.matches(self, i) ==> exists|k: int| 0 <= k < out@.len() && #[trigger] out@[k] == i,
            decreases 262144 - from,
        {
            match self.query_next(query, from) {
                Some(i) => {
                    let ghost before = out@;
                    out.push(i);
                    proof {
                        assert forall|j: int| 0 <= j < i + 1 && query.matches(self, j) implies exists|k: int|
                            0 <= k < out@.len() && #[trigger] out@[k] == j by {
                            if j < from {
                                let k = choose|k: int| 0 <= k < before.len() && #[trigger] before[k] == j;
                                assert(out@[k] == j);
                            } else {
                                assert(j == i);
                                assert(out@[out@.len() - 1] == j);
                            }
                        }
                    }
                    from = i + 1;
                },
                None => {
                    break ;
                },
            }
        }
        out
    }
}

} // verus!
