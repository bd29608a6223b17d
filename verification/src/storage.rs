//! The bitmask tree that stores one component type.
//!
//! A storage has 64 pages, a page 64 chunks, a chunk 64 slots: 64 * 64 * 64
//! slots in all. Every node carries a presence, a fullness and a changed
//! mask; pages and the storage also count the occupied slots below them.

use crate::bits::{
    bit_set, count_bits, first_zero, lemma_count_bits_flip, lemma_count_bits_mask,
    lemma_count_bits_same, lemma_full_mask, lemma_mask_and, lemma_seq_sum_bounds,
    lemma_seq_sum_update, lemma_zero_mask, next_set_bit, popcount, seq_sum, test_bit, with_bit,
    without_bit,
};
use crate::entity::Entity;
use crate::error::EcsError;
use crate::frame::Frame;
use crate::history::{
    after_remove, after_rollback, after_rollback_model, after_set, lemma_retained_len,
    lemma_undo_merged, no_diffs, opened, retained, rolled_back, sealed, shaped, undo, with_diff,
    JournalModel, Model, JOURNAL_WINDOW,
};
use crate::pool::{empty_children, Pool};
use crate::rollback::{
    lemma_remove_keeps_tick_start, lemma_set_keeps_tick_start, Diff, RollbackStorage,
};
use crate::scan::{
    chunk_of, first_match, hit_at, lemma_coordinates, lemma_slot_index, offset_of, page_of,
};
use crate::tick::Tick;
use std::collections::VecDeque;
use vstd::prelude::*;

verus! {

/// Number of slots in a storage.
pub const SLOT_COUNT: u32 = 262144;

/// Number of slots below one page.
pub const PAGE_SLOTS: u32 = 4096;

/// A leaf of the tree: up to 64 values and the masks that summarise them.
pub struct Chunk<T> {
    /// Bit `i` is set iff slot `i` holds a value.
    pub presence_mask: u64,
    /// Equal to `presence_mask` at a leaf.
    pub fullness_mask: u64,
    /// Bit `i` is set iff slot `i` was written since the last clear.
    pub changed_mask: u64,
    pub data: Vec<Option<T>>,
}

impl<T> Chunk<T> {
    /// The leaf invariants: the masks agree with each other and with the slots.
    pub open spec fn wf(&self) -> bool {
        &&& self.data.len() == 64
        &&& self.fullness_mask == self.presence_mask
        &&& forall|i: int|
            #![trigger bit_set(self.presence_mask, i)]
            #![trigger self.data[i]]
            0 <= i < 64 ==> (bit_set(self.presence_mask, i) <==> self.data[i].is_some())
    }

    /// Number of occupied slots.
    pub open spec fn count(&self) -> nat {
        count_bits(self.presence_mask, 64)
    }

    /// A chunk with no value and no mark, as it comes from `new` or a pool.
    pub open spec fn is_blank(&self) -> bool {
        &&& self.wf()
        &&& self.presence_mask == 0
        &&& self.changed_mask == 0
    }

    /// A chunk without a value.
    pub fn new() -> (c: Self)
        ensures
            c.is_blank(),
    {
        let data = empty_children::<T>();
        proof {
            lemma_zero_mask(0);
        }
        Chunk { presence_mask: 0, fullness_mask: 0, changed_mask: 0, data }
    }

    /// Checks the leaf invariants on any value of the type.
    pub fn verify_invariants(&self) -> (ok: bool)
        ensures
            ok == self.wf(),
    {
        if self.data.len() != 64 || self.fullness_mask != self.presence_mask {
            return false;
        }
        let mut i: u32 = 0;
        while i < 64
            invariant
                i <= 64,
                self.data.len() == 64,
                forall|j: int|
                    #![trigger bit_set(self.presence_mask, j)]
                    #![trigger self.data[j]]
                    0 <= j < i ==> (bit_set(self.presence_mask, j) <==> self.data[j].is_some()),
            decreases 64 - i,
        {
            if test_bit(self.presence_mask, i) != self.data[i as usize].is_some() {
                return false;
            }
            i += 1;
        }
        true
    }

    /// Forgets which slots were written.
    pub fn clear_changed_masks(&mut self)
        ensures
            final(self).changed_mask == 0,
            final(self).presence_mask == old(self).presence_mask,
            final(self).fullness_mask == old(self).fullness_mask,
            final(self).data == old(self).data,
    {
        self.changed_mask = 0;
    }

    /// Reads slot `i`.
    pub fn get(&self, i: u32) -> (r: Option<&T>)
        requires
            self.wf(),
            i < 64,
        ensures
            r.is_some() == self.data[i as int].is_some(),
            r.is_some() ==> *r.unwrap() == self.data[i as int].unwrap(),
    {
        self.data[i as usize].as_ref()
    }

    /// Writes `value` at slot `i` and hands back what the slot held.
    pub fn put(&mut self, i: u32, value: T) -> (prev: Option<T>)
        requires
            old(self).wf(),
            i < 64,
        ensures
            final(self).wf(),
            prev == old(self).data[i as int],
            final(self).data@ == old(self).data@.update(i as int, Some(value)),
            forall|j: int| #[trigger]
                bit_set(final(self).changed_mask, j) == (j == i || bit_set(old(self).changed_mask, j)),
            final(self).count() == old(self).count() + if prev.is_some() {
                0nat
            } else {
                1nat
            },
            final(self).presence_mask != 0,
    {
        let mut cell = Some(value);
        core::mem::swap(&mut self.data[i as usize], &mut cell);
        self.presence_mask = with_bit(self.presence_mask, i);
        self.fullness_mask = self.presence_mask;
        self.changed_mask = with_bit(self.changed_mask, i);
        proof {
            if cell.is_some() {
                lemma_count_bits_same(old(self).presence_mask, self.presence_mask, 64);
            } else {
                lemma_count_bits_flip(old(self).presence_mask, self.presence_mask, i as int, 64);
            }
            lemma_zero_mask(self.presence_mask);
            assert(bit_set(self.presence_mask, i as int));
        }
        cell
    }

    /// Empties slot `i` and hands back what it held. The slot counts as
    /// written only if it held a value.
    pub fn take(&mut self, i: u32) -> (prev: Option<T>)
        requires
            old(self).wf(),
            i < 64,
        ensures
            final(self).wf(),
            prev == old(self).data[i as int],
            final(self).data@ == old(self).data@.update(i as int, None),
            prev.is_some() ==> forall|j: int| #[trigger]
                bit_set(final(self).changed_mask, j) == (j == i || bit_set(old(self).changed_mask, j)),
            prev.is_none() ==> final(self).changed_mask == old(self).changed_mask,
            old(self).count() == final(self).count() + if prev.is_some() {
                1nat
            } else {
                0nat
            },
            final(self).presence_mask != u64::MAX,
    {
        let prev = self.data[i as usize].take();
        if prev.is_some() {
            self.presence_mask = without_bit(self.presence_mask, i);
            self.fullness_mask = self.presence_mask;
            self.changed_mask = with_bit(self.changed_mask, i);
            proof {
                lemma_count_bits_flip(self.presence_mask, old(self).presence_mask, i as int, 64);
            }
        }
        proof {
            lemma_full_mask(self.presence_mask);
            assert(!bit_set(self.presence_mask, i as int));
        }
        prev
    }
}

impl<T> Default for Chunk<T> {
    fn default() -> (c: Self)
        ensures
            c.is_blank(),
    {
        Chunk::new()
    }
}

/// Every chunk waiting in the pool is blank.
pub open spec fn chunks_blank<T>(pool: &Pool<Chunk<T>>) -> bool {
    forall|k: int| 0 <= k < pool.items@.len() ==> (#[trigger] pool.items@[k]).is_blank()
}

/// An interior node: up to 64 chunks and the masks that summarise them.
pub struct Page<T> {
    /// Bit `p` is set iff chunk `p` holds at least one value.
    pub presence_mask: u64,
    /// Bit `p` is set iff chunk `p` holds 64 values.
    pub fullness_mask: u64,
    /// Bit `p` is set if a slot of chunk `p` was written since the last clear.
    pub changed_mask: u64,
    /// Number of occupied slots below this page.
    pub count: u32,
    /// Chunk `p`, or `None` where the chunk holds nothing.
    pub data: Vec<Option<Chunk<T>>>,
}

impl<T> Page<T> {
    /// The count of chunk `p`, zero where the chunk holds nothing.
    pub open spec fn child_count(&self, p: int) -> nat {
        match self.data[p] {
            Some(c) => c.count(),
            None => 0,
        }
    }

    /// The counts of the 64 chunks.
    pub open spec fn child_counts(&self) -> Seq<nat> {
        Seq::new(64, |p: int| self.child_count(p))
    }

    /// The page invariants: each mask bit tells the truth about its chunk,
    /// no empty chunk is kept, and the count is the sum of the chunks' counts.
    pub open spec fn wf(&self) -> bool {
        &&& self.data.len() == 64
        &&& forall|p: int|
            #![trigger bit_set(self.presence_mask, p)]
            #![trigger self.data[p]]
            0 <= p < 64 ==> (bit_set(self.presence_mask, p) <==> self.data[p].is_some())
        &&& forall|p: int|
            0 <= p < 64 && (#[trigger] self.data[p]).is_some() ==> self.data[p].unwrap().wf()
                && self.data[p].unwrap().presence_mask != 0
        &&& forall|p: int|
            #![trigger bit_set(self.fullness_mask, p)]
            #![trigger self.data[p]]
            0 <= p < 64 ==> (bit_set(self.fullness_mask, p) <==> (self.data[p].is_some()
                && self.data[p].unwrap().presence_mask == u64::MAX))
        &&& forall|p: int|
            0 <= p < 64 && (#[trigger] self.data[p]).is_some() && self.data[p].unwrap().changed_mask
                != 0 ==> bit_set(self.changed_mask, p)
        &&& self.count == seq_sum(self.child_counts())
    }

    /// What slot `c` of chunk `p` holds.
    pub open spec fn slot(&self, p: int, c: int) -> Option<T> {
        match self.data[p] {
            Some(ch) => ch.data[c],
            None => None,
        }
    }

    /// Slot `c` of chunk `p` holds a value that was written since the last clear.
    pub open spec fn slot_changed(&self, p: int, c: int) -> bool {
        match self.data[p] {
            Some(ch) => ch.data[c].is_some() && bit_set(ch.changed_mask, c),
            None => false,
        }
    }

    /// A page with no chunk and no mark, as it comes from `new_with_pool`.
    pub open spec fn is_blank(&self) -> bool {
        &&& self.wf()
        &&& self.presence_mask == 0
        &&& self.changed_mask == 0
    }

    /// A page never counts more than its 4096 slots; it counts 4096 exactly
    /// when every chunk is saturated, and none exactly when it has no chunk.
    pub proof fn lemma_count(&self)
        requires
            self.wf(),
        ensures
            self.count <= PAGE_SLOTS,
            self.count == PAGE_SLOTS <==> self.fullness_mask == u64::MAX,
            self.count == 0 <==> self.presence_mask == 0,
    {
        let cc = self.child_counts();
        assert forall|j: int| 0 <= j < cc.len() implies #[trigger] cc[j] <= 64 by {
            if self.data[j].is_some() {
                lemma_count_bits_mask(self.data[j].unwrap().presence_mask);
            }
        }
        lemma_seq_sum_bounds(cc, 64);
        lemma_full_mask(self.fullness_mask);
        lemma_zero_mask(self.presence_mask);
        if self.fullness_mask == u64::MAX {
            assert forall|j: int| 0 <= j < cc.len() implies #[trigger] cc[j] == 64 by {
                assert(bit_set(self.fullness_mask, j));
                lemma_count_bits_mask(self.data[j].unwrap().presence_mask);
            }
        }
        if self.count == PAGE_SLOTS {
            assert forall|j: int| 0 <= j < 64 implies #[trigger] bit_set(self.fullness_mask, j) by {
                assert(cc[j] == 64);
                if self.data[j].is_some() {
                    lemma_count_bits_mask(self.data[j].unwrap().presence_mask);
                }
            }
        }
        if self.presence_mask == 0 {
            assert forall|j: int| 0 <= j < cc.len() implies #[trigger] cc[j] == 0 by {
                assert(!bit_set(self.presence_mask, j));
            }
        }
        if self.count == 0 {
            assert forall|j: int| 0 <= j < 64 implies !#[trigger] bit_set(self.presence_mask, j) by {
                assert(cc[j] == 0);
                if self.data[j].is_some() {
                    lemma_count_bits_mask(self.data[j].unwrap().presence_mask);
                }
            }
        }
    }

    /// On a page whose changed mask is clear no slot counts as written.
    pub proof fn lemma_changed_clear(&self)
        requires
            self.wf(),
            self.changed_mask == 0,
        ensures
            forall|q: int, d: int| 0 <= q < 64 && 0 <= d < 64 ==> !#[trigger] self.slot_changed(q, d),
    {
        lemma_zero_mask(0);
        assert forall|q: int, d: int| 0 <= q < 64 && 0 <= d < 64 implies !#[trigger] self.slot_changed(q, d) by {
            if self.data[q].is_some() {
                assert(!bit_set(self.changed_mask, q));
                lemma_zero_mask(self.data[q].unwrap().changed_mask);
            }
        }
    }

    /// A page with no chunk: one that the pool had waiting, else a new one.
    pub fn new_with_pool(pool: &mut Pool<Page<T>>) -> (page: Self)
        requires
            pages_blank(old(pool)),
        ensures
            page.is_blank(),
            pages_blank(final(pool)),
            final(pool).items@.len() <= old(pool).items@.len(),
    {
        match pool.acquire() {
            Some(page) => page,
            None => {
                let data = empty_children::<Chunk<T>>();
                let page = Page { presence_mask: 0, fullness_mask: 0, changed_mask: 0, count: 0, data };
                proof {
                    lemma_zero_mask(0);
                    let cc = page.child_counts();
                    assert forall|j: int| 0 <= j < cc.len() implies #[trigger] cc[j] == 0 by {}
                    lemma_seq_sum_bounds(cc, 0);
                }
                page
            },
        }
    }

    /// Reads slot `c` of chunk `p`.
    pub fn get(&self, p: u32, c: u32) -> (r: Option<&T>)
        requires
            self.wf(),
            p < 64,
            c < 64,
        ensures
            r.is_some() == self.slot(p as int, c as int).is_some(),
            r.is_some() ==> *r.unwrap() == self.slot(p as int, c as int).unwrap(),
    {
        match &self.data[p as usize] {
            Some(chunk) => chunk.get(c),
            None => None,
        }
    }

    /// Writes `value` at slot `c` of chunk `p`, taking a chunk from the pool
    /// where the page has none there, and hands back what the slot held.
    pub fn put(&mut self, p: u32, c: u32, value: T, pool: &mut Pool<Chunk<T>>) -> (prev: Option<T>)
        requires
            old(self).wf(),
            p < 64,
            c < 64,
            chunks_blank(old(pool)),
        ensures
            final(self).wf(),
            chunks_blank(final(pool)),
            prev == old(self).slot(p as int, c as int),
            forall|q: int, d: int|
                0 <= q < 64 && 0 <= d < 64 ==> #[trigger] final(self).slot(q, d) == if q == p && d == c {
                    Some(value)
                } else {
                    old(self).slot(q, d)
                },
            forall|q: int, d: int|
                0 <= q < 64 && 0 <= d < 64 ==> #[trigger] final(self).slot_changed(q, d) == (q == p && d
                    == c || old(self).slot_changed(q, d)),
            final(self).count == old(self).count + if prev.is_some() {
                0int
            } else {
                1int
            },
            final(self).presence_mask != 0,
            final(self).changed_mask != 0,
    {
        proof {
            old(self).lemma_count();
        }
        if self.data[p as usize].is_none() {
            let fresh = match pool.acquire() {
                Some(ch) => ch,
                None => Chunk::new(),
            };
            self.data[p as usize] = Some(fresh);
        }
        let ghost mid = *self;
        let mut prev: Option<T> = None;
        let mut full = false;
        match &mut self.data[p as usize] {
            Some(chunk) => {
                prev = chunk.put(c, value);
                full = chunk.presence_mask == u64::MAX;
            },
            None => {},
        }
        self.presence_mask = with_bit(self.presence_mask, p);
        self.fullness_mask = if full {
            with_bit(self.fullness_mask, p)
        } else {
            without_bit(self.fullness_mask, p)
        };
        self.changed_mask = with_bit(self.changed_mask, p);
        if prev.is_none() {
            self.count = self.count + 1;
        }
        proof {
            lemma_count_bits_mask(0);
            lemma_zero_mask(0);
            lemma_zero_mask(self.presence_mask);
            lemma_zero_mask(self.changed_mask);
            assert(bit_set(self.presence_mask, p as int));
            assert(bit_set(self.changed_mask, p as int));
            let och = mid.data[p as int].unwrap();
            let nch = self.data[p as int].unwrap();
            assert(self.data@ =~= old(self).data@.update(p as int, Some(nch)));
            assert forall|d: int| 0 <= d < 64 implies #[trigger] och.data[d] == old(self).slot(p as int, d)
                && (och.data[d].is_some() && bit_set(och.changed_mask, d)) == old(self).slot_changed(
                p as int,
                d,
            ) by {
                if old(self).data[p as int].is_none() {
                    assert(!bit_set(och.presence_mask, d));
                }
            }
            assert forall|q: int, d: int| 0 <= q < 64 && 0 <= d < 64 implies #[trigger] self.slot(q, d)
                == if q == p && d == c {
                Some(value)
            } else {
                old(self).slot(q, d)
            } by {
                if q == p {
                    assert(nch.data@[d] == och.data@.update(c as int, Some(value))[d]);
                    assert(och.data[d] == old(self).slot(p as int, d));
                }
            }
            assert forall|q: int, d: int| 0 <= q < 64 && 0 <= d < 64 implies #[trigger] self.slot_changed(
                q,
                d,
            ) == (q == p && d == c || old(self).slot_changed(q, d)) by {
                if q == p {
                    assert(nch.data@[d] == och.data@.update(c as int, Some(value))[d]);
                    assert(och.data[d] == old(self).slot(p as int, d));
                    assert(bit_set(nch.changed_mask, d) == (d == c || bit_set(och.changed_mask, d)));
                }
            }
            let oc = old(self).child_counts();
            let nc = self.child_counts();
            assert(och.count() == oc[p as int]);
            assert(nc =~= oc.update(p as int, nch.count()));
            lemma_seq_sum_update(oc, p as int, nch.count());
        }
        prev
    }

    /// Empties slot `c` of chunk `p` and hands back what it held. A chunk
    /// left without a value goes back to the pool. Nothing changes where the
    /// slot was empty.
    pub fn take(&mut self, p: u32, c: u32, pool: &mut Pool<Chunk<T>>) -> (prev: Option<T>)
        requires
            old(self).wf(),
            p < 64,
            c < 64,
            chunks_blank(old(pool)),
        ensures
            final(self).wf(),
            chunks_blank(final(pool)),
            prev == old(self).slot(p as int, c as int),
            forall|q: int, d: int|
                0 <= q < 64 && 0 <= d < 64 ==> #[trigger] final(self).slot(q, d) == if q == p && d == c {
                    None
                } else {
                    old(self).slot(q, d)
                },
            forall|q: int, d: int|
                0 <= q < 64 && 0 <= d < 64 ==> #[trigger] final(self).slot_changed(q, d) == (!(q == p
                    && d == c) && old(self).slot_changed(q, d)),
            old(self).count == final(self).count + if prev.is_some() {
                1int
            } else {
                0int
            },
            prev.is_some() ==> final(self).changed_mask != 0,
            prev.is_none() ==> final(self).changed_mask == old(self).changed_mask
                && final(self).presence_mask == old(self).presence_mask && final(self).fullness_mask
                == old(self).fullness_mask,
    {
        let present = match &self.data[p as usize] {
            Some(chunk) => test_bit(chunk.presence_mask, c),
            None => false,
        };
        if !present {
            proof {
                if self.data[p as int].is_some() {
                    assert(!bit_set(self.data[p as int].unwrap().presence_mask, c as int));
                }
                assert(self.slot(p as int, c as int).is_none());
                assert(!self.slot_changed(p as int, c as int));
            }
            return None;
        }
        let mut prev: Option<T> = None;
        let mut empty = false;
        match &mut self.data[p as usize] {
            Some(chunk) => {
                prev = chunk.take(c);
                empty = chunk.presence_mask == 0;
            },
            None => {},
        }
        let ghost mid = *self;
        if empty {
            let released = self.data[p as usize].take();
            match released {
                Some(ch) => {
                    let mut ch = ch;
                    ch.clear_changed_masks();
                    pool.free(ch);
                },
                None => {},
            }
            self.presence_mask = without_bit(self.presence_mask, p);
        }
        self.fullness_mask = without_bit(self.fullness_mask, p);
        self.changed_mask = with_bit(self.changed_mask, p);
        proof {
            old(self).lemma_count();
            let och = old(self).data[p as int].unwrap();
            lemma_count_bits_mask(och.presence_mask);
            let oc = old(self).child_counts();
            lemma_seq_sum_update(oc, p as int, 0);
            assert(oc[p as int] == och.count());
            assert(bit_set(och.presence_mask, c as int));
            lemma_zero_mask(och.presence_mask);
        }
        self.count = self.count - 1;
        proof {
            lemma_count_bits_mask(0);
            lemma_zero_mask(0);
            lemma_zero_mask(self.changed_mask);
            assert(bit_set(self.changed_mask, p as int));
            let och = old(self).data[p as int].unwrap();
            let mch = mid.data[p as int].unwrap();
            assert(bit_set(och.presence_mask, c as int));
            assert(prev.is_some());
            assert(mid.data@ =~= old(self).data@.update(p as int, Some(mch)));
            assert(self.data@ =~= old(self).data@.update(
                p as int,
                if empty {
                    None
                } else {
                    Some(mch)
                },
            ));
            assert forall|d: int| 0 <= d < 64 implies #[trigger] mch.data[d] == if d == c {
                None
            } else {
                och.data[d]
            } by {
                assert(mch.data@[d] == och.data@.update(c as int, None)[d]);
            }
            assert forall|q: int, d: int| 0 <= q < 64 && 0 <= d < 64 implies #[trigger] self.slot(q, d)
                == if q == p && d == c {
                None
            } else {
                old(self).slot(q, d)
            } by {
                if q == p {
                    assert(mch.data[d] == if d == c {
                        None
                    } else {
                        och.data[d]
                    });
                    if empty {
                        assert(!bit_set(mch.presence_mask, d));
                    }
                }
            }
            assert forall|q: int, d: int| 0 <= q < 64 && 0 <= d < 64 implies #[trigger] self.slot_changed(
                q,
                d,
            ) == (!(q == p && d == c) && old(self).slot_changed(q, d)) by {
                if q == p {
                    assert(mch.data[d] == if d == c {
                        None
                    } else {
                        och.data[d]
                    });
                    assert(bit_set(mch.changed_mask, d) == (d == c || bit_set(och.changed_mask, d)));
                    if empty {
                        assert(!bit_set(mch.presence_mask, d));
                    }
                }
            }
            let oc = old(self).child_counts();
            let nc = self.child_counts();
            let now: nat = if empty {
                0
            } else {
                mch.count()
            };
            assert(mch.count() == now);
            assert(nc =~= oc.update(p as int, now));
            lemma_seq_sum_update(oc, p as int, now);
            lemma_full_mask(mch.presence_mask);
        }
        prev
    }

    /// Forgets which slots were written, visiting only the chunks that the
    /// changed mask names.
    pub fn clear_changed_masks(&mut self)
        requires
            old(self).wf(),
        ensures
            final(self).wf(),
            final(self).changed_mask == 0,
            final(self).presence_mask == old(self).presence_mask,
            final(self).fullness_mask == old(self).fullness_mask,
            final(self).count == old(self).count,
            forall|q: int, d: int|
                0 <= q < 64 && 0 <= d < 64 ==> #[trigger] final(self).slot(q, d) == old(self).slot(q, d),
            forall|q: int, d: int| 0 <= q < 64 && 0 <= d < 64 ==> !#[trigger] final(self).slot_changed(q, d),
    {
        let mask = self.changed_mask & self.presence_mask;
        proof {
            lemma_mask_and(self.changed_mask, self.presence_mask);
        }
        let mut cur = next_set_bit(mask, 0);
        let ghost mut done: int = if cur.is_some() {
            cur.unwrap() as int
        } else {
            64
        };
        proof {
            assert forall|q: int| 0 <= q < done && (#[trigger] self.data[q]).is_some() implies self.data[q].unwrap().changed_mask
                == 0 by {
                assert(!bit_set(mask, q));
                assert(bit_set(self.presence_mask, q));
                lemma_zero_mask(self.data[q].unwrap().changed_mask);
            }
        }
        while cur.is_some()
            invariant
                self.data.len() == 64,
                self.presence_mask == old(self).presence_mask,
                self.fullness_mask == old(self).fullness_mask,
                self.changed_mask == old(self).changed_mask,
                self.count == old(self).count,
                old(self).wf(),
                0 <= done <= 64,
                cur.is_some() ==> cur.unwrap() == done && done < 64 && bit_set(mask, done),
                cur.is_none() ==> done == 64,
                forall|j: int| #[trigger] bit_set(mask, j) == (bit_set(self.changed_mask, j) && bit_set(
                    self.presence_mask,
                    j,
                )),
                forall|q: int|
                    0 <= q < 64 ==> (#[trigger] self.data[q]).is_some() == old(self).data[q].is_some(),
                forall|q: int|
                    0 <= q < 64 && (#[trigger] self.data[q]).is_some() ==> self.data[q].unwrap().data
                        == old(self).data[q].unwrap().data && self.data[q].unwrap().presence_mask == old(self).data[q].unwrap().presence_mask && self.data[q].unwrap().fullness_mask == old(self).data[q].unwrap().fullness_mask,
                forall|q: int|
                    0 <= q < done && (#[trigger] self.data[q]).is_some() ==> self.data[q].unwrap().changed_mask
                        == 0,
                forall|q: int|
                    done <= q < 64 && (#[trigger] self.data[q]).is_some() ==> self.data[q].unwrap().changed_mask
                        == old(self).data[q].unwrap().changed_mask,
            decreases 64 - done,
        {
            let p = cur.unwrap();
            match &mut self.data[p as usize] {
                Some(chunk) => {
                    chunk.clear_changed_masks();
                },
                None => {},
            }
            cur = next_set_bit(mask, p + 1);
            proof {
                let next: int = if cur.is_some() {
                    cur.unwrap() as int
                } else {
                    64
                };
                assert forall|q: int| 0 <= q < next && (#[trigger] self.data[q]).is_some() implies self.data[q].unwrap().changed_mask
                    == 0 by {
                    if q > p {
                        assert(!bit_set(mask, q));
                        assert(bit_set(self.presence_mask, q));
                        lemma_zero_mask(old(self).data[q].unwrap().changed_mask);
                    }
                }
                done = next;
            }
        }
        self.changed_mask = 0;
        proof {
            lemma_zero_mask(0);
            assert(self.child_counts() =~= old(self).child_counts());
        }
    }

    /// Checks the page invariants, and those of every chunk, on any value of
    /// the type.
    pub fn verify_invariants(&self) -> (ok: bool)
        ensures
            ok == self.wf(),
    {
        if self.data.len() != 64 {
            return false;
        }
        let mut total: u32 = 0;
        let mut p: u32 = 0;
        while p < 64
            invariant
                p <= 64,
                self.data.len() == 64,
                total == seq_sum(self.child_counts().take(p as int)),
                total <= 64 * p,
                forall|q: int|
                    #![trigger bit_set(self.presence_mask, q)]
                    #![trigger self.data[q]]
                    0 <= q < p ==> (bit_set(self.presence_mask, q) <==> self.data[q].is_some()),
                forall|q: int|
                    0 <= q < p && (#[trigger] self.data[q]).is_some() ==> self.data[q].unwrap().wf()
                        && self.data[q].unwrap().presence_mask != 0,
                forall|q: int|
                    #![trigger bit_set(self.fullness_mask, q)]
                    #![trigger self.data[q]]
                    0 <= q < p ==> (bit_set(self.fullness_mask, q) <==> (self.data[q].is_some()
                        && self.data[q].unwrap().presence_mask == u64::MAX)),
                forall|q: int|
                    0 <= q < p && (#[trigger] self.data[q]).is_some() && self.data[q].unwrap().changed_mask
                        != 0 ==> bit_set(self.changed_mask, q),
            decreases 64 - p,
        {
            let present = test_bit(self.presence_mask, p);
            let full = test_bit(self.fullness_mask, p);
            let mut add: u32 = 0;
            match &self.data[p as usize] {
                Some(chunk) => {
                    if !present || !chunk.verify_invariants() || chunk.presence_mask == 0 {
                        return false;
                    }
                    if full != (chunk.presence_mask == u64::MAX) {
                        return false;
                    }
                    if chunk.changed_mask != 0 && !test_bit(self.changed_mask, p) {
                        return false;
                    }
                    add = popcount(chunk.presence_mask);
                },
                None => {
                    if present || full {
                        return false;
                    }
                },
            }
            proof {
                let cc = self.child_counts();
                assert(cc.take(p as int + 1).drop_last() =~= cc.take(p as int));
                assert(cc.take(p as int + 1).last() == add);
            }
            total = total + add;
            p += 1;
        }
        proof {
            assert(self.child_counts().take(64) =~= self.child_counts());
        }
        self.count == total
    }
}

/// Every page waiting in the pool is blank.
pub open spec fn pages_blank<T>(pool: &Pool<Page<T>>) -> bool {
    forall|k: int| 0 <= k < pool.items@.len() ==> (#[trigger] pool.items@[k]).is_blank()
}

/// The sparse container of one component type, with its rollback journals.
///
/// Slot `i` lives at position `i % 64` of chunk `(i / 64) % 64` of page
/// `i / 4096`.
pub struct Storage<T> {
    /// Bit `s` is set iff page `s` holds at least one value.
    pub presence_mask: u64,
    /// Bit `s` is set iff page `s` holds 4096 values.
    pub fullness_mask: u64,
    /// Bit `s` is set if a slot of page `s` was written since the last clear.
    pub changed_mask: u64,
    /// Number of occupied slots.
    pub count: u32,
    /// The open journal: the changes of the tick that is being recorded.
    pub rollback: RollbackStorage<T>,
    /// The sealed journals of earlier ticks, oldest first; at most 64.
    pub prev: VecDeque<RollbackStorage<T>>,
    /// Journals ready for reuse.
    pub rollback_pool: Vec<RollbackStorage<T>>,
    pub page_pool: Pool<Page<T>>,
    pub chunk_pool: Pool<Chunk<T>>,
    /// Page `s`, or `None` where the page holds nothing.
    pub data: Vec<Option<Page<T>>>,
    /// The entity generation counter; it only moves in the entity storage.
    pub generation: u64,
}

impl<T> View for Storage<T> {
    type V = Seq<Option<T>>;

    /// What every slot holds, by slot index.
    open spec fn view(&self) -> Seq<Option<T>> {
        Seq::new(262144, |i: int| self.slot(i))
    }
}

impl<T> Storage<T> {
    /// The count of page `s`, zero where the page holds nothing.
    pub open spec fn page_count(&self, s: int) -> nat {
        match self.data[s] {
            Some(page) => page.count as nat,
            None => 0,
        }
    }

    /// The counts of the 64 pages.
    pub open spec fn page_counts(&self) -> Seq<nat> {
        Seq::new(64, |s: int| self.page_count(s))
    }

    /// The masks of the storage tell the truth about page `s`, and the page
    /// itself is sound.
    pub open spec fn page_ok(&self, s: int) -> bool {
        &&& bit_set(self.presence_mask, s) <==> self.data[s].is_some()
        &&& self.data[s].is_some() ==> self.data[s].unwrap().wf() && self.data[s].unwrap().presence_mask
            != 0
        &&& bit_set(self.fullness_mask, s) <==> (self.data[s].is_some() && self.data[s].unwrap().count
            == PAGE_SLOTS)
        &&& self.data[s].is_some() && self.data[s].unwrap().changed_mask != 0 ==> bit_set(
            self.changed_mask,
            s,
        )
    }

    /// The invariants of the storage tree, at every level: a fullness bit
    /// implies the presence bit, a leaf's fullness equals its presence, an
    /// interior fullness bit marks a saturated child and a presence bit an
    /// occupied one, every count is the sum below it, and a slot whose
    /// presence bit is clear holds nothing.
    pub open spec fn tree_wf(&self) -> bool {
        &&& self.data.len() == 64
        &&& forall|s: int| 0 <= s < 64 ==> #[trigger] self.page_ok(s)
        &&& self.count == seq_sum(self.page_counts())
        &&& chunks_blank(&self.chunk_pool)
        &&& pages_blank(&self.page_pool)
    }

    /// What slot `c` of chunk `p` of page `s` holds.
    pub open spec fn slot3(&self, s: int, p: int, c: int) -> Option<T> {
        match self.data[s] {
            Some(page) => page.slot(p, c),
            None => None,
        }
    }

    /// What a slot holds, by slot index; nothing beyond the last slot.
    pub open spec fn slot(&self, index: int) -> Option<T> {
        if 0 <= index < 262144 {
            self.slot3(page_of(index), chunk_of(index), offset_of(index))
        } else {
            None
        }
    }

    /// Slot `c` of chunk `p` of page `s` holds a value written since the last clear.
    pub open spec fn slot_changed3(&self, s: int, p: int, c: int) -> bool {
        match self.data[s] {
            Some(page) => page.slot_changed(p, c),
            None => false,
        }
    }

    /// The slot holds a value that was written since the last clear.
    pub open spec fn slot_changed(&self, index: int) -> bool {
        0 <= index < 262144 && self.slot_changed3(page_of(index), chunk_of(index), offset_of(index))
    }

    /// Which slots hold a value written since the last clear, by slot index.
    pub open spec fn changed(&self) -> Seq<bool> {
        Seq::new(262144, |i: int| self.slot_changed(i))
    }

    /// A storage never counts more than its 262144 slots; it counts that
    /// many exactly when every page is saturated.
    pub proof fn lemma_count(&self)
        requires
            self.tree_wf(),
        ensures
            self.count <= SLOT_COUNT,
            self.count == SLOT_COUNT <==> self.fullness_mask == u64::MAX,
            self.count == 0 <==> self.presence_mask == 0,
    {
        let pc = self.page_counts();
        assert forall|j: int| 0 <= j < pc.len() implies #[trigger] pc[j] <= 4096 by {
            assert(self.page_ok(j));
            if self.data[j].is_some() {
                self.data[j].unwrap().lemma_count();
            }
        }
        lemma_seq_sum_bounds(pc, 4096);
        lemma_full_mask(self.fullness_mask);
        lemma_zero_mask(self.presence_mask);
        if self.fullness_mask == u64::MAX {
            assert forall|j: int| 0 <= j < pc.len() implies #[trigger] pc[j] == 4096 by {
                assert(self.page_ok(j));
                assert(bit_set(self.fullness_mask, j));
            }
        }
        if self.count == SLOT_COUNT {
            assert forall|j: int| 0 <= j < 64 implies #[trigger] bit_set(self.fullness_mask, j) by {
                assert(self.page_ok(j));
                assert(pc[j] == 4096);
            }
        }
        if self.presence_mask == 0 {
            assert forall|j: int| 0 <= j < pc.len() implies #[trigger] pc[j] == 0 by {
                assert(self.page_ok(j));
                assert(!bit_set(self.presence_mask, j));
            }
        }
        if self.count == 0 {
            assert forall|j: int| 0 <= j < 64 implies !#[trigger] bit_set(self.presence_mask, j) by {
                assert(self.page_ok(j));
                assert(pc[j] == 0);
                if self.data[j].is_some() {
                    self.data[j].unwrap().lemma_count();
                }
            }
        }
    }

    /// Reads a slot. Out of range there is nothing to read.
    pub fn get(&self, index: u32) -> (r: Option<&T>)
        requires
            self.tree_wf(),
        ensures
            r.is_some() == self.slot(index as int).is_some(),
            r.is_some() ==> *r.unwrap() == self.slot(index as int).unwrap(),
    {
        if index >= SLOT_COUNT {
            return None;
        }
        let s: u32 = index / 4096;
        let p: u32 = (index / 64) % 64;
        let c: u32 = index % 64;
        proof {
            assert(self.page_ok(s as int));
        }
        match &self.data[s as usize] {
            Some(page) => page.get(p, c),
            None => None,
        }
    }

    /// Writes a slot without journaling and hands back what it held.
    pub(crate) fn put_raw(&mut self, index: u32, value: T) -> (prev: Option<T>)
        requires
            old(self).tree_wf(),
            index < 262144,
        ensures
            final(self).tree_wf(),
            prev == old(self)@[index as int],
            final(self)@ == old(self)@.update(index as int, Some(value)),
            final(self).changed() == old(self).changed().update(index as int, true),
            forall|b: int|
                0 <= b < 64 ==> (#[trigger] bit_set(final(self).changed_mask, b) <==> b == page_of(index as int) || bit_set(
                    old(self).changed_mask,
                    b,
                )),
            final(self).rollback == old(self).rollback,
            final(self).prev == old(self).prev,
            final(self).rollback_pool == old(self).rollback_pool,
            final(self).generation == old(self).generation,
    {
        let s: u32 = index / 4096;
        let p: u32 = (index / 64) % 64;
        let c: u32 = index % 64;
        proof {
            old(self).lemma_count();
            assert(old(self).page_ok(s as int));
        }
        if self.data[s as usize].is_none() {
            let page = Page::new_with_pool(&mut self.page_pool);
            self.data[s as usize] = Some(page);
        }
        let ghost mid = *self;
        let mut prev: Option<T> = None;
        let mut full = false;
        match &mut self.data[s as usize] {
            Some(page) => {
                prev = page.put(p, c, value, &mut self.chunk_pool);
                full = page.count == PAGE_SLOTS;
            },
            None => {},
        }
        self.presence_mask = with_bit(self.presence_mask, s);
        self.fullness_mask = if full {
            with_bit(self.fullness_mask, s)
        } else {
            without_bit(self.fullness_mask, s)
        };
        self.changed_mask = with_bit(self.changed_mask, s);
        if prev.is_none() {
            self.count = self.count + 1;
        }
        proof {
            let opg = mid.data[s as int].unwrap();
            let npg = self.data[s as int].unwrap();
            opg.lemma_count();
            assert(self.data@ =~= old(self).data@.update(s as int, Some(npg)));
            assert forall|q: int, e: int| 0 <= q < 64 && 0 <= e < 64 implies #[trigger] opg.slot(q, e) == old(self).slot3(s as int, q, e) by {
                if old(self).data[s as int].is_none() {
                    lemma_zero_mask(0);
                    assert(!bit_set(opg.presence_mask, q));
                }
            }
            assert forall|q: int, e: int| 0 <= q < 64 && 0 <= e < 64 implies #[trigger] opg.slot_changed(q, e)
                == old(self).slot_changed3(s as int, q, e) by {
                if old(self).data[s as int].is_none() {
                    lemma_zero_mask(0);
                    assert(!bit_set(opg.presence_mask, q));
                }
            }
            assert forall|q: int| 0 <= q < 64 implies #[trigger] self.page_ok(q) by {
                assert(old(self).page_ok(q));
            }
            let oc = old(self).page_counts();
            let nc = self.page_counts();
            assert(oc[s as int] == opg.count);
            assert(nc =~= oc.update(s as int, npg.count as nat));
            lemma_seq_sum_update(oc, s as int, npg.count as nat);
            lemma_coordinates(index as int);
            assert forall|j: int| 0 <= j < 262144 implies self@[j] == old(self)@.update(index as int, Some(value))[j]
                && self.changed()[j] == old(self).changed().update(index as int, true)[j] by {
                lemma_coordinates(j);
                if page_of(j) == s {
                    assert(npg.slot(chunk_of(j), offset_of(j)) == if chunk_of(j) == p && offset_of(j) == c {
                        Some(value)
                    } else {
                        opg.slot(chunk_of(j), offset_of(j))
                    });
                    assert(npg.slot_changed(chunk_of(j), offset_of(j)) == (chunk_of(j) == p && offset_of(j) == c
                        || opg.slot_changed(chunk_of(j), offset_of(j))));
                    assert(opg.slot(chunk_of(j), offset_of(j)) == old(self).slot3(
                        s as int,
                        chunk_of(j),
                        offset_of(j),
                    ));
                }
            }
            assert(self@ =~= old(self)@.update(index as int, Some(value)));
            assert(self.changed() =~= old(self).changed().update(index as int, true));
        }
        prev
    }

    /// Empties a slot without journaling and hands back what it held. A page
    /// left without a value goes back to the pool.
    pub(crate) fn take_raw(&mut self, index: u32) -> (prev: Option<T>)
        requires
            old(self).tree_wf(),
            index < 262144,
        ensures
            final(self).tree_wf(),
            prev == old(self)@[index as int],
            final(self)@ == old(self)@.update(index as int, None),
            final(self).changed() == old(self).changed().update(index as int, false),
            prev.is_none() ==> final(self).changed_mask == old(self).changed_mask,
            prev.is_some() ==> forall|b: int|
                0 <= b < 64 ==> (#[trigger] bit_set(final(self).changed_mask, b) <==> b == page_of(index as int) || bit_set(
                    old(self).changed_mask,
                    b,
                )),
            final(self).rollback == old(self).rollback,
            final(self).prev == old(self).prev,
            final(self).rollback_pool == old(self).rollback_pool,
            final(self).generation == old(self).generation,
    {
        let s: u32 = index / 4096;
        let p: u32 = (index / 64) % 64;
        let c: u32 = index % 64;
        proof {
            old(self).lemma_count();
            assert(old(self).page_ok(s as int));
            lemma_coordinates(index as int);
        }
        if self.data[s as usize].is_none() {
            proof {
                assert(self@ =~= old(self)@.update(index as int, None));
                assert(self.changed() =~= old(self).changed().update(index as int, false));
            }
            return None;
        }
        let mut prev: Option<T> = None;
        let mut empty = false;
        match &mut self.data[s as usize] {
            Some(page) => {
                prev = page.take(p, c, &mut self.chunk_pool);
                empty = page.presence_mask == 0;
            },
            None => {},
        }
        let ghost mid = *self;
        if prev.is_some() {
            if empty {
                match self.data[s as usize].take() {
                    Some(page) => {
                        let mut page = page;
                        page.changed_mask = 0;
                        proof {
                            lemma_zero_mask(0);
                            assert(page.child_counts() =~= mid.data[s as int].unwrap().child_counts());
                        }
                        self.page_pool.free(page);
                    },
                    None => {},
                }
                self.presence_mask = without_bit(self.presence_mask, s);
            }
            self.fullness_mask = without_bit(self.fullness_mask, s);
            self.changed_mask = with_bit(self.changed_mask, s);
            proof {
                let opg = old(self).data[s as int].unwrap();
                opg.lemma_count();
                let oc = old(self).page_counts();
                lemma_seq_sum_update(oc, s as int, 0);
                assert(oc[s as int] == opg.count);
            }
            self.count = self.count - 1;
        }
        proof {
            let opg = old(self).data[s as int].unwrap();
            let mpg = mid.data[s as int].unwrap();
            mpg.lemma_count();
            lemma_zero_mask(0);
            assert forall|q: int| 0 <= q < 64 implies #[trigger] self.page_ok(q) by {
                assert(old(self).page_ok(q));
            }
            let oc = old(self).page_counts();
            let nc = self.page_counts();
            assert(nc =~= oc.update(s as int, mpg.count as nat));
            lemma_seq_sum_update(oc, s as int, mpg.count as nat);
            assert forall|j: int| 0 <= j < 262144 implies self@[j] == old(self)@.update(index as int, None)[j]
                && self.changed()[j] == old(self).changed().update(index as int, false)[j] by {
                lemma_coordinates(j);
                if page_of(j) == s {
                    let q = chunk_of(j);
                    let e = offset_of(j);
                    assert(mpg.slot(q, e) == if q == p && e == c {
                        None
                    } else {
                        opg.slot(q, e)
                    });
                    assert(mpg.slot_changed(q, e) == (!(q == p && e == c) && opg.slot_changed(q, e)));
                    if prev.is_some() && empty {
                        assert(!bit_set(mpg.presence_mask, q));
                    }
                }
            }
            assert(self@ =~= old(self)@.update(index as int, None));
            assert(self.changed() =~= old(self).changed().update(index as int, false));
        }
        prev
    }
}

/// A journal as a value of the model.
pub open spec fn journal_model<T>(j: RollbackStorage<T>) -> JournalModel<T> {
    JournalModel { tick: j.tick.0, saved_generation: j.generation_at_tick_start, diffs: j@ }
}

/// Journals as values of the model, in their order.
pub open spec fn journal_models<T>(js: Seq<RollbackStorage<T>>) -> Seq<JournalModel<T>> {
    Seq::new(js.len(), |k: int| journal_model(js[k]))
}

impl<T> Storage<T> {
    /// The journals as values of the model: the sealed ones, oldest first,
    /// then the open one.
    pub open spec fn journals(&self) -> Seq<JournalModel<T>> {
        journal_models(self.prev@).push(journal_model(self.rollback))
    }

    /// The storage as a value of the model: what its slots hold, its
    /// journals, and its generation counter.
    pub open spec fn model(&self) -> Model<T> {
        Model { state: self@, journals: self.journals(), generation: self.generation }
    }

    /// A sound storage has the shape that the laws of the model ask for.
    pub proof fn lemma_model_shaped(&self)
        requires
            self.wf(),
        ensures
            shaped(self.model()),
    {
        let m = self.model();
        assert forall|k: int| 0 <= k < m.journals.len() implies (#[trigger] m.journals[k]).diffs.len() == 262144 by {}
        assert forall|i: int| 0 <= i < 262144 implies (#[trigger] m.journals.last().diffs[i]).fits(m.state[i]) by {
            assert(self.record_fits(i));
        }
    }

    /// The open journal's record of slot `i` fits what the slot holds.
    pub open spec fn record_fits(&self, i: int) -> bool {
        self.rollback.diff(i).fits(self.slot(i))
    }

    /// Everything that holds of a storage between two operations: the tree
    /// invariants, the journal invariants of every retained journal, the
    /// bound on the sealed journals, and the open journal fitting the slots.
    pub open spec fn wf(&self) -> bool {
        &&& self.tree_wf()
        &&& self.rollback.wf()
        &&& self.prev@.len() <= 64
        &&& forall|k: int| 0 <= k < self.prev@.len() ==> (#[trigger] self.prev@[k]).wf()
        &&& forall|i: int| 0 <= i < 262144 ==> #[trigger] self.record_fits(i)
    }

    /// Two storages with the same tree agree on every slot, on every mark
    /// and on the tree invariants.
    pub proof fn lemma_same_tree(&self, other: &Storage<T>)
        requires
            self.data == other.data,
            self.presence_mask == other.presence_mask,
            self.fullness_mask == other.fullness_mask,
            self.changed_mask == other.changed_mask,
            self.count == other.count,
            self.page_pool == other.page_pool,
            self.chunk_pool == other.chunk_pool,
        ensures
            self@ == other@,
            self.changed() == other.changed(),
            self.tree_wf() == other.tree_wf(),
            forall|i: int| #[trigger] self.slot(i) == other.slot(i),
    {
        assert(self@ =~= other@);
        assert(self.changed() =~= other.changed());
        assert(self.page_counts() =~= other.page_counts());
        if self.tree_wf() {
            assert forall|s: int| 0 <= s < 64 implies #[trigger] other.page_ok(s) by {
                assert(self.page_ok(s));
            }
        }
        if other.tree_wf() {
            assert forall|s: int| 0 <= s < 64 implies #[trigger] self.page_ok(s) by {
                assert(other.page_ok(s));
            }
        }
    }

    /// An empty storage with one empty journal, open at tick zero.
    pub fn new() -> (st: Self)
        ensures
            st.wf(),
            st@ == Seq::new(262144, |i: int| None::<T>),
            st.changed() == Seq::new(262144, |i: int| false),
            st.journals() == seq![JournalModel { tick: 0, saved_generation: 0, diffs: no_diffs::<T>() }],
            st.generation == 0,
            st.count == 0,
            st.changed_mask == 0,
    {
        let st = Storage {
            presence_mask: 0,
            fullness_mask: 0,
            changed_mask: 0,
            count: 0,
            rollback: RollbackStorage::new(),
            prev: VecDeque::new(),
            rollback_pool: Vec::new(),
            page_pool: Pool::new(),
            chunk_pool: Pool::new(),
            data: empty_children::<Page<T>>(),
            generation: 0,
        };
        proof {
            lemma_zero_mask(0);
            assert forall|s: int| 0 <= s < 64 implies #[trigger] st.page_ok(s) by {}
            let pc = st.page_counts();
            assert forall|j: int| 0 <= j < pc.len() implies #[trigger] pc[j] == 0 by {}
            lemma_seq_sum_bounds(pc, 0);
            st.rollback.lemma_empty();
            assert forall|i: int| 0 <= i < 262144 implies #[trigger] st.record_fits(i) by {}
            assert(st@ =~= Seq::new(262144, |i: int| None::<T>));
            assert(st.changed() =~= Seq::new(262144, |i: int| false));
            assert(st.rollback@ =~= no_diffs::<T>());
            assert(st.journals() =~= seq![
                JournalModel { tick: 0, saved_generation: 0, diffs: no_diffs::<T>() },
            ]);
        }
        st
    }

    /// Makes sure that the open journal is tagged `ct`. Where it is not, the
    /// open journal is sealed with the generation counter saved into it, an
    /// empty journal is opened for `ct`, and the oldest sealed journal is
    /// recycled if more than 64 remain.
    pub fn ensure_rollback_tick(&mut self, ct: Tick)
        requires
            old(self).wf(),
        ensures
            final(self).wf(),
            final(self)@ == old(self)@,
            final(self).changed() == old(self).changed(),
            final(self).generation == old(self).generation,
            final(self).journals() == opened(old(self).journals(), ct.0, old(self).generation),
            final(self).rollback.tick == ct,
            final(self).data == old(self).data,
            final(self).presence_mask == old(self).presence_mask,
            final(self).fullness_mask == old(self).fullness_mask,
            final(self).changed_mask == old(self).changed_mask,
            final(self).count == old(self).count,
    {
        if self.rollback.tick.0 != ct.0 {
            self.rollback.save_generation(self.generation);
            let ghost sealed_journal = self.rollback;
            let mut fresh = match self.rollback_pool.pop() {
                Some(j) => {
                    let mut j = j;
                    j.reset_for_tick(ct);
                    j
                },
                None => RollbackStorage::with_tick(ct),
            };
            core::mem::swap(&mut self.rollback, &mut fresh);
            self.prev.push_back(fresh);
            let ghost grown = self.journals();
            if self.prev.len() > JOURNAL_WINDOW {
                match self.prev.pop_front() {
                    Some(j) => {
                        self.rollback_pool.push(j);
                    },
                    None => {},
                }
            }
            proof {
                self.rollback.lemma_empty();
                assert(self.rollback@ =~= no_diffs::<T>());
                self.lemma_same_tree(old(self));
                assert forall|i: int| 0 <= i < 262144 implies #[trigger] self.record_fits(i) by {}
                assert(journal_model(sealed_journal) == JournalModel {
                    tick: old(self).rollback.tick.0,
                    saved_generation: old(self).generation,
                    diffs: old(self).rollback@,
                });
                let oj = old(self).journals();
                let last = oj.last();
                let sealed = oj.drop_last().push(
                    JournalModel { tick: last.tick, saved_generation: old(self).generation, diffs: last.diffs },
                );
                let expect = sealed.push(JournalModel { tick: ct.0, saved_generation: 0, diffs: no_diffs::<T>() });
                assert(grown =~= expect);
                if old(self).prev@.len() == 64 {
                    assert(self.journals() =~= expect.subrange(1, expect.len() as int));
                } else {
                    assert(self.journals() =~= expect);
                }
            }
        } else {
            proof {
                assert(self.journals() =~= old(self).journals());
            }
        }
    }

    /// Writes `value` at slot `index` and journals the write under the
    /// frame's tick. An index beyond the last slot is refused and nothing
    /// changes.
    pub fn set(&mut self, frame: &Frame, index: u32, value: T) -> (r: Result<(), EcsError>)
        requires
            old(self).wf(),
        ensures
            final(self).wf(),
            index >= SLOT_COUNT ==> r == Err::<(), EcsError>(EcsError::OutOfRange) && *final(self) == *old(self),
            index < SLOT_COUNT ==> r.is_ok() && final(self).model() == after_set(
                old(self).model(),
                frame.current_tick.0,
                index as int,
                value,
            ) && final(self).changed() == old(self).changed().update(index as int, true),
            index < SLOT_COUNT ==> forall|b: int|
                0 <= b < 64 ==> (#[trigger] bit_set(final(self).changed_mask, b) <==> b == page_of(index as int) || bit_set(
                    old(self).changed_mask,
                    b,
                )),
    {
        if index >= SLOT_COUNT {
            return Err(EcsError::OutOfRange);
        }
        self.ensure_rollback_tick(frame.current_tick);
        let ghost mid = *self;
        let prev = self.put_raw(index, value);
        let ghost mid2 = *self;
        self.rollback.record_set(index, prev);
        proof {
            self.lemma_same_tree(&mid2);
            assert forall|i: int| 0 <= i < 262144 implies #[trigger] self.record_fits(i) by {
                assert(mid.record_fits(i));
                assert(self.rollback@[i] == self.rollback.diff(i));
                assert(mid.rollback@[i] == mid.rollback.diff(i));
                assert(mid2@[i] == mid2.slot(i));
                assert(mid@[i] == mid.slot(i));
                if i == index {
                    lemma_set_keeps_tick_start(mid.rollback.diff(i), mid.slot(i), value);
                }
            }
            let open = opened(old(self).journals(), frame.current_tick.0, old(self).generation);
            assert(mid.journals() == open);
            assert(mid.rollback@[index as int] == mid.rollback.diff(index as int));
            assert(self.journals() =~= with_diff(
                open,
                index as int,
                open.last().diffs[index as int].spec_after_set(old(self)@[index as int]),
            ));
        }
        Ok(())
    }

    /// Empties slot `index` and journals the removal under the frame's
    /// tick. Says whether a value was removed; where none was, because the
    /// slot was empty or the index beyond the last slot, nothing changes.
    /// A removal marks the slot's page as changed at the root.
    pub fn remove(&mut self, frame: &Frame, index: u32) -> (removed: bool)
        requires
            old(self).wf(),
        ensures
            final(self).wf(),
            removed == old(self).slot(index as int).is_some(),
            !removed ==> *final(self) == *old(self),
            removed ==> final(self).model() == after_remove(old(self).model(), frame.current_tick.0, index as int)
                && final(self).changed() == old(self).changed().update(index as int, false),
            removed ==> forall|b: int|
                0 <= b < 64 ==> (#[trigger] bit_set(final(self).changed_mask, b) <==> b == page_of(index as int) || bit_set(
                    old(self).changed_mask,
                    b,
                )),
    {
        if index >= SLOT_COUNT {
            return false;
        }
        if self.get(index).is_none() {
            return false;
        }
        self.ensure_rollback_tick(frame.current_tick);
        let ghost mid = *self;
        let prev = self.take_raw(index);
        let ghost mid2 = *self;
        match prev {
            Some(v) => {
                self.rollback.record_remove(index, v);
            },
            None => {},
        }
        proof {
            self.lemma_same_tree(&mid2);
            assert(mid@[index as int] == mid.slot(index as int));
            assert(old(self)@[index as int] == old(self).slot(index as int));
            assert forall|i: int| 0 <= i < 262144 implies #[trigger] self.record_fits(i) by {
                assert(mid.record_fits(i));
                assert(self.rollback@[i] == self.rollback.diff(i));
                assert(mid.rollback@[i] == mid.rollback.diff(i));
                assert(mid2@[i] == mid2.slot(i));
                assert(mid@[i] == mid.slot(i));
                if i == index {
                    lemma_remove_keeps_tick_start(mid.rollback.diff(i), mid.slot(i).unwrap());
                }
            }
            let open = opened(old(self).journals(), frame.current_tick.0, old(self).generation);
            assert(mid.journals() == open);
            assert(mid.rollback@[index as int] == mid.rollback.diff(index as int));
            assert(self.journals() =~= with_diff(
                open,
                index as int,
                open.last().diffs[index as int].spec_after_remove(old(self)@[index as int].unwrap()),
            ));
        }
        true
    }
}

impl<T> Storage<T> {
    /// A page is as it was, but for its marks, which are clear.
    pub open spec fn page_cleared(now: Option<Page<T>>, was: Option<Page<T>>) -> bool {
        now.is_some() ==> {
            &&& was.is_some()
            &&& now.unwrap().wf()
            &&& now.unwrap().changed_mask == 0
            &&& now.unwrap().presence_mask == was.unwrap().presence_mask
            &&& now.unwrap().fullness_mask == was.unwrap().fullness_mask
            &&& now.unwrap().count == was.unwrap().count
            &&& forall|q: int, d: int|
                0 <= q < 64 && 0 <= d < 64 ==> #[trigger] now.unwrap().slot(q, d) == was.unwrap().slot(q, d)
        }
    }

    /// Forgets which slots were written, at every level, visiting only the
    /// pages that the changed mask names. The journals are not touched.
    pub fn clear_changed_masks(&mut self)
        requires
            old(self).tree_wf(),
        ensures
            final(self).tree_wf(),
            old(self).wf() ==> final(self).wf(),
            final(self).changed_mask == 0,
            final(self)@ == old(self)@,
            final(self).changed() == Seq::new(262144, |i: int| false),
            final(self).journals() == old(self).journals(),
            final(self).generation == old(self).generation,
            final(self).rollback == old(self).rollback,
            final(self).prev == old(self).prev,
            final(self).presence_mask == old(self).presence_mask,
            final(self).fullness_mask == old(self).fullness_mask,
            final(self).count == old(self).count,
    {
        let mask = self.changed_mask & self.presence_mask;
        proof {
            lemma_mask_and(self.changed_mask, self.presence_mask);
        }
        let mut cur = next_set_bit(mask, 0);
        let ghost mut done: int = if cur.is_some() {
            cur.unwrap() as int
        } else {
            64
        };
        proof {
            assert forall|q: int| 0 <= q < done implies #[trigger] Self::page_cleared(self.data[q], old(self).data[q]) by {
                assert(old(self).page_ok(q));
                assert(!bit_set(mask, q));
            }
        }
        while cur.is_some()
            invariant
                old(self).tree_wf(),
                self.data.len() == 64,
                self.presence_mask == old(self).presence_mask,
                self.fullness_mask == old(self).fullness_mask,
                self.changed_mask == old(self).changed_mask,
                self.count == old(self).count,
                self.rollback == old(self).rollback,
                self.prev == old(self).prev,
                self.rollback_pool == old(self).rollback_pool,
                self.page_pool == old(self).page_pool,
                self.chunk_pool == old(self).chunk_pool,
                self.generation == old(self).generation,
                0 <= done <= 64,
                cur.is_some() ==> cur.unwrap() == done && done < 64 && bit_set(mask, done),
                cur.is_none() ==> done == 64,
                forall|j: int| #[trigger] bit_set(mask, j) == (bit_set(old(self).changed_mask, j) && bit_set(
                    old(self).presence_mask,
                    j,
                )),
                forall|q: int| 0 <= q < 64 ==> (#[trigger] self.data[q]).is_some() == old(self).data[q].is_some(),
                forall|q: int| 0 <= q < done ==> #[trigger] Self::page_cleared(self.data[q], old(self).data[q]),
                forall|q: int| done <= q < 64 ==> (#[trigger] self.data[q]) == old(self).data[q],
            decreases 64 - done,
        {
            let s = cur.unwrap();
            proof {
                assert(old(self).page_ok(s as int));
            }
            let ghost before = *self;
            match &mut self.data[s as usize] {
                Some(page) => {
                    page.clear_changed_masks();
                },
                None => {},
            }
            cur = next_set_bit(mask, s + 1);
            proof {
                let next: int = if cur.is_some() {
                    cur.unwrap() as int
                } else {
                    64
                };
                assert forall|q: int| 0 <= q < next implies #[trigger] Self::page_cleared(self.data[q], old(self).data[q]) by {
                    assert(old(self).page_ok(q));
                    if q < s {
                        assert(Self::page_cleared(before.data[q], old(self).data[q]));
                        assert(self.data[q] == before.data[q]);
                    } else if q > s {
                        assert(!bit_set(mask, q));
                    }
                }
                done = next;
            }
        }
        self.changed_mask = 0;
        proof {
            lemma_zero_mask(0);
            assert(self.page_counts() =~= old(self).page_counts()) by {
                assert forall|q: int| 0 <= q < 64 implies self.page_count(q) == old(self).page_count(q) by {
                    assert(Self::page_cleared(self.data[q], old(self).data[q]));
                }
            }
            assert forall|q: int| 0 <= q < 64 implies #[trigger] self.page_ok(q) by {
                assert(old(self).page_ok(q));
                assert(Self::page_cleared(self.data[q], old(self).data[q]));
            }
            assert forall|j: int| 0 <= j < 262144 implies #[trigger] self@[j] == old(self)@[j] by {
                lemma_coordinates(j);
                let q = page_of(j);
                assert(Self::page_cleared(self.data[q], old(self).data[q]));
                if self.data[q].is_some() {
                    assert(self.data[q].unwrap().slot(chunk_of(j), offset_of(j)) == old(self).data[q].unwrap().slot(
                        chunk_of(j),
                        offset_of(j),
                    ));
                }
            }
            assert forall|j: int| 0 <= j < 262144 implies !#[trigger] self.changed()[j] by {
                lemma_coordinates(j);
                let q = page_of(j);
                assert(Self::page_cleared(self.data[q], old(self).data[q]));
                if self.data[q].is_some() {
                    self.data[q].unwrap().lemma_changed_clear();
                }
            }
            assert(self@ =~= old(self)@);
            assert(self.changed() =~= Seq::new(262144, |i: int| false));
            if old(self).wf() {
                assert forall|i: int| 0 <= i < 262144 implies #[trigger] self.record_fits(i) by {
                    assert(old(self).record_fits(i));
                    assert(self@[i] == self.slot(i));
                    assert(old(self)@[i] == old(self).slot(i));
                }
            }
        }
    }

    /// Undoes every record of a journal, taking the saved values out of
    /// it: each slot that has a record is written or emptied once.
    fn undo_journal(&mut self, j: &mut RollbackStorage<T>)
        requires
            old(self).tree_wf(),
            old(j).wf(),
        ensures
            final(self).tree_wf(),
            final(j).wf(),
            final(j).tick == old(j).tick,
            final(self)@ == undo(old(j)@, old(self)@),
            final(self).rollback == old(self).rollback,
            final(self).prev == old(self).prev,
            final(self).rollback_pool == old(self).rollback_pool,
            final(self).generation == old(self).generation,
    {
        let ghost s0 = self@;
        let ghost j0 = j@;
        let mut cur = first_match(&*j, 0);
        let ghost mut done: int = if cur.is_some() {
            cur.unwrap() as int
        } else {
            262144
        };
        proof {
            assert forall|i: int| 0 <= i < done implies self@[i] == j0[i].undo(s0[i]) by {
                assert(!hit_at(&*j, i));
                lemma_coordinates(i);
            }
        }
        while cur.is_some()
            invariant
                self.tree_wf(),
                j.wf(),
                j.tick == old(j).tick,
                self.rollback == old(self).rollback,
                self.prev == old(self).prev,
                self.rollback_pool == old(self).rollback_pool,
                self.generation == old(self).generation,
                s0.len() == 262144,
                j0.len() == 262144,
                0 <= done <= 262144,
                cur.is_some() ==> cur.unwrap() == done && done < 262144,
                cur.is_none() ==> done == 262144,
                forall|i: int| 0 <= i < done ==> self@[i] == j0[i].undo(s0[i]),
                forall|i: int| done <= i < 262144 ==> self@[i] == s0[i] && j@[i] == j0[i],
            decreases 262144 - done,
        {
            let i = cur.unwrap();
            let ghost before = self@;
            assert(j@[i as int] == j.diff(i as int));
            let d = j.take_diff(i);
            match d {
                Diff::Unchanged => {},
                Diff::Created => {
                    let _dropped = self.take_raw(i);
                },
                Diff::Changed(v) => {
                    let _dropped = self.put_raw(i, v);
                },
                Diff::Removed(v) => {
                    let _dropped = self.put_raw(i, v);
                },
            }
            cur = first_match(&*j, i + 1);
            proof {
                let next: int = if cur.is_some() {
                    cur.unwrap() as int
                } else {
                    262144
                };
                assert(self@ =~= before.update(i as int, j0[i as int].undo(s0[i as int])));
                assert forall|k: int| 0 <= k < next implies self@[k] == j0[k].undo(s0[k]) by {
                    if k > i {
                        assert(!hit_at(&*j, k));
                        lemma_coordinates(k);
                        assert(j@[k] == j.diff(k));
                    }
                }
                done = next;
            }
        }
        proof {
            assert(self@ =~= undo(j0, s0));
        }
    }

    /// The tick of the oldest journal that is retained.
    pub fn oldest_tick(&self) -> (t: Tick)
        ensures
            t.0 == self.journals()[0].tick,
    {
        if self.prev.len() > 0 {
            self.prev[0].tick()
        } else {
            self.rollback.tick()
        }
    }

    /// Takes the storage back to the end of tick `target`. The journals
    /// tagged with a later tick are consumed, newest first, and their
    /// records taken as one, so that a slot keeps the oldest record that any
    /// of them has of it; that record is then undone, which writes or
    /// empties each slot at most once and clones nothing. The generation
    /// counter is restored from the newest journal that stays, the changed
    /// masks are cleared, and an empty journal is opened for `target`. A
    /// target before the oldest retained journal is refused and nothing
    /// changes.
    pub fn rollback(&mut self, target_tick: Tick) -> (r: Result<(), EcsError>)
        requires
            old(self).wf(),
        ensures
            final(self).wf(),
            old(self).journals()[0].tick > target_tick.0 ==> r == Err::<(), EcsError>(
                EcsError::RollbackBeyondWindow,
            ) && *final(self) == *old(self),
            old(self).journals()[0].tick <= target_tick.0 ==> r.is_ok() && final(self).model()
                == after_rollback_model(old(self).model(), target_tick.0) && final(self).changed() == Seq::new(
                262144,
                |i: int| false,
            ) && final(self).changed_mask == 0,
    {
        let oldest = self.oldest_tick();
        if oldest.0 > target_tick.0 {
            return Err(EcsError::RollbackBeyondWindow);
        }
        let target: u32 = target_tick.0;
        self.rollback.save_generation(self.generation);
        let mut open = match self.rollback_pool.pop() {
            Some(j) => {
                let mut j = j;
                j.reset_for_tick(target_tick);
                j
            },
            None => RollbackStorage::with_tick(target_tick),
        };
        let mut pending = match self.rollback_pool.pop() {
            Some(j) => {
                let mut j = j;
                j.reset_for_tick(target_tick);
                j
            },
            None => RollbackStorage::with_tick(target_tick),
        };
        core::mem::swap(&mut self.rollback, &mut open);
        self.prev.push_back(open);
        let ghost j0 = journal_models(self.prev@);
        let ghost s0 = self@;
        proof {
            self.lemma_same_tree(old(self));
            assert(j0 =~= sealed(old(self).journals(), old(self).generation));
            lemma_rolled_back_sealed(s0, old(self).journals(), old(self).generation, target);
            assert(retained(journal_models(self.prev@), target) + journal_models(
                Seq::<RollbackStorage<T>>::empty(),
            ) =~= retained(j0, target));
        }
        let mut kept: VecDeque<RollbackStorage<T>> = VecDeque::new();
        proof {
            pending.lemma_empty();
            assert(undo(pending@, s0) =~= s0);
        }
        while self.prev.len() > 0
            invariant
                self.tree_wf(),
                self.rollback.wf(),
                self.rollback.is_empty(),
                self.rollback.tick == target_tick,
                self.rollback.generation_at_tick_start == 0,
                self.generation == old(self).generation,
                forall|k: int| 0 <= k < self.prev@.len() ==> (#[trigger] self.prev@[k]).wf(),
                forall|k: int| 0 <= k < kept@.len() ==> (#[trigger] kept@[k]).wf(),
                self.prev@.len() + kept@.len() <= 65,
                s0.len() == 262144,
                self@ == s0,
                pending.wf(),
                rolled_back(s0, j0, target) == rolled_back(
                    undo(pending@, s0),
                    journal_models(self.prev@),
                    target,
                ),
                retained(j0, target) == retained(journal_models(self.prev@), target) + journal_models(kept@),
            decreases self.prev@.len(),
        {
            let ghost before = journal_models(self.prev@);
            let ghost kept_before = journal_models(kept@);
            let ghost at_top = *self;
            let ghost newer = pending@;
            match self.prev.pop_back() {
                Some(j) => {
                    let mut j = j;
                    proof {
                        self.lemma_same_tree(&at_top);
                        assert(journal_models(self.prev@) =~= before.drop_last());
                        assert(before.last() == journal_model(j));
                    }
                    if j.tick().0 > target {
                        j.absorb(&mut pending);
                        core::mem::swap(&mut pending, &mut j);
                        let ghost after_swap = *self;
                        self.rollback_pool.push(j);
                        proof {
                            self.lemma_same_tree(&after_swap);
                            lemma_undo_merged(before.last().diffs, newer, s0);
                        }
                    } else {
                        kept.push_front(j);
                        proof {
                            assert(journal_models(kept@) =~= seq![before.last()] + kept_before);
                            assert(retained(before.drop_last(), target).push(before.last()) + kept_before
                                =~= retained(before.drop_last(), target) + journal_models(kept@));
                        }
                    }
                },
                None => {},
            }
        }
        proof {
            assert(journal_models(self.prev@) =~= Seq::<JournalModel<T>>::empty());
            assert(retained(j0, target) =~= journal_models(kept@));
            lemma_retained_len(j0, target);
            assert(j0[0].tick == old(self).journals()[0].tick);
        }
        let ghost merged_all = *self;
        self.undo_journal(&mut pending);
        let ghost undone = *self;
        self.rollback_pool.push(pending);
        proof {
            self.lemma_same_tree(&undone);
            assert(self@ == rolled_back(s0, j0, target));
        }
        let ghost looped = *self;
        self.generation = kept[kept.len() - 1].get_saved_generation();
        let ghost all_kept = journal_models(kept@);
        if kept.len() > JOURNAL_WINDOW {
            match kept.pop_front() {
                Some(j) => {
                    self.rollback_pool.push(j);
                },
                None => {},
            }
            proof {
                assert(journal_models(kept@) =~= all_kept.subrange(1, all_kept.len() as int));
            }
        }
        self.prev = kept;
        proof {
            self.lemma_same_tree(&looped);
        }
        self.clear_changed_masks();
        proof {
            self.rollback.lemma_empty();
            assert(self.rollback@ =~= no_diffs::<T>());
            assert forall|i: int| 0 <= i < 262144 implies #[trigger] self.record_fits(i) by {}
            assert(self.journals() =~= after_rollback(old(self).journals(), target, old(self).generation));
        }
        Ok(())
    }
}

impl<T> Storage<T> {
    /// Checks the invariants of the storage tree, at every level, on any
    /// value of the type: recomputes the counts and holds every mask against
    /// the node it summarises.
    pub fn verify_tree(&self) -> (ok: bool)
        ensures
            ok == self.tree_wf(),
    {
        if self.data.len() != 64 {
            return false;
        }
        let mut total: u32 = 0;
        let mut s: u32 = 0;
        while s < 64
            invariant
                s <= 64,
                self.data.len() == 64,
                total == seq_sum(self.page_counts().take(s as int)),
                total <= 4096 * s,
                forall|q: int| 0 <= q < s ==> #[trigger] self.page_ok(q),
            decreases 64 - s,
        {
            let present = test_bit(self.presence_mask, s);
            let full = test_bit(self.fullness_mask, s);
            let mut add: u32 = 0;
            match &self.data[s as usize] {
                Some(page) => {
                    if !present || !page.verify_invariants() || page.presence_mask == 0 {
                        assert(!self.page_ok(s as int));
                        return false;
                    }
                    if full != (page.count == PAGE_SLOTS) {
                        assert(!self.page_ok(s as int));
                        return false;
                    }
                    if page.changed_mask != 0 && !test_bit(self.changed_mask, s) {
                        assert(!self.page_ok(s as int));
                        return false;
                    }
                    proof {
                        page.lemma_count();
                    }
                    add = page.count;
                },
                None => {
                    if present || full {
                        assert(!self.page_ok(s as int));
                        return false;
                    }
                },
            }
            proof {
                let pc = self.page_counts();
                assert(pc.take(s as int + 1).drop_last() =~= pc.take(s as int));
                assert(pc.take(s as int + 1).last() == add);
            }
            total = total + add;
            s += 1;
        }
        proof {
            assert(self.page_counts().take(64) =~= self.page_counts());
        }
        if self.count != total {
            return false;
        }
        let mut k: usize = 0;
        while k < self.chunk_pool.items.len()
            invariant
                k <= self.chunk_pool.items@.len(),
                forall|q: int| 0 <= q < k ==> (#[trigger] self.chunk_pool.items@[q]).is_blank(),
            decreases self.chunk_pool.items@.len() - k,
        {
            let chunk = &self.chunk_pool.items[k];
            if !chunk.verify_invariants() || chunk.presence_mask != 0 || chunk.changed_mask != 0 {
                assert(!self.chunk_pool.items@[k as int].is_blank());
                return false;
            }
            k += 1;
        }
        let mut k: usize = 0;
        while k < self.page_pool.items.len()
            invariant
                k <= self.page_pool.items@.len(),
                chunks_blank(&self.chunk_pool),
                forall|q: int| 0 <= q < k ==> (#[trigger] self.page_pool.items@[q]).is_blank(),
            decreases self.page_pool.items@.len() - k,
        {
            let page = &self.page_pool.items[k];
            if !page.verify_invariants() || page.presence_mask != 0 || page.changed_mask != 0 {
                assert(!self.page_pool.items@[k as int].is_blank());
                return false;
            }
            k += 1;
        }
        true
    }

    /// Checks everything that holds of a storage between two operations, on
    /// any value of the type: the invariants of the storage tree and of
    /// every journal tree, the bound on the sealed journals, and that the
    /// open journal's records fit the slots.
    pub fn verify_invariants(&self) -> (ok: bool)
        ensures
            ok == self.wf(),
    {
        if !self.verify_tree() || !self.rollback.verify_invariants() || self.prev.len() > JOURNAL_WINDOW {
            return false;
        }
        let mut k: usize = 0;
        while k < self.prev.len()
            invariant
                k <= self.prev@.len(),
                forall|q: int| 0 <= q < k ==> (#[trigger] self.prev@[q]).wf(),
            decreases self.prev@.len() - k,
        {
            if !self.prev[k].verify_invariants() {
                assert(!self.prev@[k as int].wf());
                return false;
            }
            k += 1;
        }
        let mut cur = first_match(&self.rollback, 0);
        let ghost mut done: int = if cur.is_some() {
            cur.unwrap() as int
        } else {
            262144
        };
        proof {
            assert forall|i: int| 0 <= i < done implies #[trigger] self.record_fits(i) by {
                assert(!hit_at(&self.rollback, i));
            }
        }
        while cur.is_some()
            invariant
                self.tree_wf(),
                self.rollback.wf(),
                0 <= done <= 262144,
                cur.is_some() ==> cur.unwrap() == done && done < 262144 && hit_at(&self.rollback, done),
                cur.is_none() ==> done == 262144,
                forall|i: int| 0 <= i < done ==> #[trigger] self.record_fits(i),
            decreases 262144 - done,
        {
            let i = cur.unwrap();
            let occupied = self.get(i).is_some();
            let removed = self.rollback.verify_was_removed(i);
            if removed == occupied {
                assert(!self.record_fits(i as int));
                return false;
            }
            cur = first_match(&self.rollback, i + 1);
            proof {
                let next: int = if cur.is_some() {
                    cur.unwrap() as int
                } else {
                    262144
                };
                assert(self.record_fits(i as int));
                assert forall|j: int| 0 <= j < next implies #[trigger] self.record_fits(j) by {
                    if j > i {
                        assert(!hit_at(&self.rollback, j));
                    }
                }
                done = next;
            }
        }
        true
    }
}

impl<T> Storage<T> {
    /// Checks the storage as `verify_invariants` does and reports a
    /// violation as an error.
    pub fn check_invariants(&self) -> (r: Result<(), EcsError>)
        ensures
            self.wf() ==> r.is_ok(),
            !self.wf() ==> r == Err::<(), EcsError>(EcsError::InvariantViolation),
    {
        if self.verify_invariants() {
            Ok(())
        } else {
            Err(EcsError::InvariantViolation)
        }
    }
}

impl<T> Default for Storage<T> {
    fn default() -> (st: Self)
        ensures
            st.wf(),
            st@ == Seq::new(262144, |i: int| None::<T>),
    {
        Storage::new()
    }
}

/// The three masks of one node of a storage tree.
#[derive(Clone, Copy, Debug)]
pub struct NodeMasks {
    pub presence: u64,
    pub fullness: u64,
    pub changed: u64,
}

impl<T> Storage<T> {
    /// The three masks that the tree keeps at a node, all zero where the
    /// tree has no such node.
    pub open spec fn node_masks(&self, level: Level) -> NodeMasks {
        let zero = NodeMasks { presence: 0, fullness: 0, changed: 0 };
        match level {
            Level::Top => NodeMasks {
                presence: self.presence_mask,
                fullness: self.fullness_mask,
                changed: self.changed_mask,
            },
            Level::Page(s) => match self.data[s as int] {
                Some(page) => NodeMasks {
                    presence: page.presence_mask,
                    fullness: page.fullness_mask,
                    changed: page.changed_mask,
                },
                None => zero,
            },
            Level::Chunk(s, p) => match self.data[s as int] {
                Some(page) => match page.data[p as int] {
                    Some(chunk) => NodeMasks {
                        presence: chunk.presence_mask,
                        fullness: chunk.fullness_mask,
                        changed: chunk.changed_mask,
                    },
                    None => zero,
                },
                None => zero,
            },
        }
    }

    /// The masks of the storage itself. A set presence bit is owed to every
    /// page with an occupied slot, a set changed bit to every page with a
    /// written slot, and a set fullness bit promises that every slot of the
    /// page is occupied.
    pub fn top_masks(&self) -> (m: NodeMasks)
        requires
            self.tree_wf(),
        ensures
            m == self.node_masks(Level::Top),
            m.presence == self.presence_mask,
            m.fullness == self.fullness_mask,
            m.changed == self.changed_mask,
            forall|s: int, p: int, c: int|
                0 <= s < 64 && 0 <= p < 64 && 0 <= c < 64 && (#[trigger] self.slot3(s, p, c)).is_some()
                    ==> bit_set(m.presence, s),
            forall|s: int, p: int, c: int|
                0 <= s < 64 && 0 <= p < 64 && 0 <= c < 64 && bit_set(m.fullness, s) ==> (#[trigger] self.slot3(
                    s,
                    p,
                    c,
                )).is_some(),
            forall|s: int, p: int, c: int|
                0 <= s < 64 && 0 <= p < 64 && 0 <= c < 64 && #[trigger] self.slot_changed3(s, p, c) ==> bit_set(
                    m.changed,
                    s,
                ),
    {
        proof {
            assert forall|s: int, p: int, c: int|
                0 <= s < 64 && 0 <= p < 64 && 0 <= c < 64 && (#[trigger] self.slot3(s, p, c)).is_some() implies bit_set(
                self.presence_mask,
                s,
            ) by {
                assert(self.page_ok(s));
            }
            assert forall|s: int, p: int, c: int|
                0 <= s < 64 && 0 <= p < 64 && 0 <= c < 64 && bit_set(self.fullness_mask, s) implies (#[trigger] self.slot3(
                s,
                p,
                c,
            )).is_some() by {
                self.lemma_saturated_page(s, p, c);
            }
            assert forall|s: int, p: int, c: int|
                0 <= s < 64 && 0 <= p < 64 && 0 <= c < 64 && #[trigger] self.slot_changed3(s, p, c) implies bit_set(
                self.changed_mask,
                s,
            ) by {
                assert(self.page_ok(s));
                let page = self.data[s].unwrap();
                let chunk = page.data[p].unwrap();
                lemma_zero_mask(chunk.changed_mask);
                lemma_zero_mask(page.changed_mask);
                assert(bit_set(chunk.changed_mask, c));
                assert(bit_set(page.changed_mask, p));
            }
        }
        NodeMasks { presence: self.presence_mask, fullness: self.fullness_mask, changed: self.changed_mask }
    }

    /// The masks of page `s`, all zero where the page holds nothing.
    pub fn page_masks(&self, s: u32) -> (m: NodeMasks)
        requires
            self.tree_wf(),
            s < 64,
        ensures
            m == self.node_masks(Level::Page(s)),
            forall|p: int, c: int|
                0 <= p < 64 && 0 <= c < 64 && (#[trigger] self.slot3(s as int, p, c)).is_some() ==> bit_set(
                    m.presence,
                    p,
                ),
            forall|p: int, c: int|
                0 <= p < 64 && 0 <= c < 64 && bit_set(m.fullness, p) ==> (#[trigger] self.slot3(s as int, p, c)).is_some(),
            forall|p: int, c: int|
                0 <= p < 64 && 0 <= c < 64 && #[trigger] self.slot_changed3(s as int, p, c) ==> bit_set(
                    m.changed,
                    p,
                ),
    {
        proof {
            assert(self.page_ok(s as int));
            lemma_zero_mask(0);
        }
        match &self.data[s as usize] {
            Some(page) => {
                proof {
                    assert forall|p: int, c: int|
                        0 <= p < 64 && 0 <= c < 64 && bit_set(page.fullness_mask, p) implies (#[trigger] self.slot3(
                        s as int,
                        p,
                        c,
                    )).is_some() by {
                        let chunk = page.data[p].unwrap();
                        lemma_full_mask(chunk.presence_mask);
                        assert(bit_set(chunk.presence_mask, c));
                    }
                    assert forall|p: int, c: int|
                        0 <= p < 64 && 0 <= c < 64 && #[trigger] self.slot_changed3(s as int, p, c) implies bit_set(
                        page.changed_mask,
                        p,
                    ) by {
                        let chunk = page.data[p].unwrap();
                        lemma_zero_mask(chunk.changed_mask);
                        assert(bit_set(chunk.changed_mask, c));
                    }
                }
                NodeMasks { presence: page.presence_mask, fullness: page.fullness_mask, changed: page.changed_mask }
            },
            None => NodeMasks { presence: 0, fullness: 0, changed: 0 },
        }
    }

    /// The masks of chunk `p` of page `s`, all zero where the chunk holds
    /// nothing. The presence bits are exact; a slot counts as written where
    /// its presence bit and its changed bit are both set.
    pub fn chunk_masks(&self, s: u32, p: u32) -> (m: NodeMasks)
        requires
            self.tree_wf(),
            s < 64,
            p < 64,
        ensures
            m == self.node_masks(Level::Chunk(s, p)),
            forall|c: int|
                0 <= c < 64 ==> (#[trigger] bit_set(m.presence, c) <==> self.slot3(s as int, p as int, c).is_some()),
            forall|c: int|
                0 <= c < 64 ==> ((bit_set(m.presence, c) && #[trigger] bit_set(m.changed, c))
                    <==> self.slot_changed3(s as int, p as int, c)),
            m.fullness == m.presence,
    {
        proof {
            assert(self.page_ok(s as int));
            lemma_zero_mask(0);
        }
        match &self.data[s as usize] {
            Some(page) => match &page.data[p as usize] {
                Some(chunk) => NodeMasks {
                    presence: chunk.presence_mask,
                    fullness: chunk.fullness_mask,
                    changed: chunk.changed_mask,
                },
                None => NodeMasks { presence: 0, fullness: 0, changed: 0 },
            },
            None => NodeMasks { presence: 0, fullness: 0, changed: 0 },
        }
    }

    /// Every slot of a saturated page is occupied.
    pub proof fn lemma_saturated_page(&self, s: int, p: int, c: int)
        requires
            self.tree_wf(),
            0 <= s < 64,
            0 <= p < 64,
            0 <= c < 64,
            bit_set(self.fullness_mask, s),
        ensures
            self.slot3(s, p, c).is_some(),
    {
        assert(self.page_ok(s));
        let page = self.data[s].unwrap();
        page.lemma_count();
        lemma_full_mask(page.fullness_mask);
        assert(bit_set(page.fullness_mask, p));
        let chunk = page.data[p].unwrap();
        lemma_full_mask(chunk.presence_mask);
        assert(bit_set(chunk.presence_mask, c));
    }
}

/// A node of a storage tree: the root, a page, or a chunk of a page.
#[derive(Clone, Copy, Debug)]
pub enum Level {
    Top,
    Page(u32),
    Chunk(u32, u32),
}

impl Level {
    /// The node exists in a tree of 64 pages of 64 chunks.
    pub open spec fn valid(self) -> bool {
        match self {
            Level::Top => true,
            Level::Page(s) => s < 64,
            Level::Chunk(s, p) => s < 64 && p < 64,
        }
    }

    /// Slot `c` of chunk `p` of page `s` lies below the node.
    pub open spec fn covers(self, s: int, p: int, c: int) -> bool {
        &&& 0 <= s < 64
        &&& 0 <= p < 64
        &&& 0 <= c < 64
        &&& match self {
            Level::Top => true,
            Level::Page(s0) => s == s0,
            Level::Chunk(s0, p0) => s == s0 && p == p0,
        }
    }

    /// The bit of the node's masks that speaks for the slot.
    pub open spec fn bit_of(self, s: int, p: int, c: int) -> int {
        match self {
            Level::Top => s,
            Level::Page(_) => p,
            Level::Chunk(_, _) => c,
        }
    }

    /// What masks must say of a slot that holds a value iff `has`, written
    /// since the last clear iff `marked`: a presence bit for every occupied
    /// slot, a changed bit for every written one, and a fullness bit only
    /// where the slot is occupied. At a chunk the presence bit is exact,
    /// the fullness bit equals it, and presence and changed bit together
    /// say that the slot was written.
    pub open spec fn sound(self, m: NodeMasks, has: bool, marked: bool, s: int, p: int, c: int) -> bool {
        let b = self.bit_of(s, p, c);
        &&& has ==> bit_set(m.presence, b)
        &&& bit_set(m.fullness, b) ==> has
        &&& marked ==> bit_set(m.changed, b) && has
        &&& self is Chunk ==> {
            &&& bit_set(m.presence, b) ==> has
            &&& has ==> bit_set(m.fullness, b)
            &&& bit_set(m.presence, b) && bit_set(m.changed, b) ==> marked
        }
    }
}

impl<T> Storage<T> {
    /// The slot's masks at the node are sound.
    pub open spec fn masks_sound(&self, level: Level, m: NodeMasks, s: int, p: int, c: int) -> bool {
        level.sound(m, self.slot3(s, p, c).is_some(), self.slot_changed3(s, p, c), s, p, c)
    }

    /// The masks of one node of the tree, all zero where the node holds
    /// nothing.
    pub fn masks_at(&self, level: Level) -> (m: NodeMasks)
        requires
            self.tree_wf(),
            level.valid(),
        ensures
            m == self.node_masks(level),
            forall|s: int, p: int, c: int| level.covers(s, p, c) ==> #[trigger] self.masks_sound(level, m, s, p, c),
    {
        match level {
            Level::Top => {
                let m = self.top_masks();
                proof {
                    assert forall|s: int, p: int, c: int| level.covers(s, p, c) implies #[trigger] self.masks_sound(
                        level,
                        m,
                        s,
                        p,
                        c,
                    ) by {
                        if self.slot_changed3(s, p, c) {
                            assert(self.page_ok(s));
                        }
                    }
                }
                m
            },
            Level::Page(s0) => {
                let m = self.page_masks(s0);
                proof {
                    assert forall|s: int, p: int, c: int| level.covers(s, p, c) implies #[trigger] self.masks_sound(
                        level,
                        m,
                        s,
                        p,
                        c,
                    ) by {}
                }
                m
            },
            Level::Chunk(s0, p0) => {
                let m = self.chunk_masks(s0, p0);
                proof {
                    assert(self.page_ok(s0 as int));
                    lemma_zero_mask(0);
                    assert forall|s: int, p: int, c: int| level.covers(s, p, c) implies #[trigger] self.masks_sound(
                        level,
                        m,
                        s,
                        p,
                        c,
                    ) by {
                        assert(bit_set(m.presence, c) <==> self.slot3(s, p, c).is_some());
                        assert((bit_set(m.presence, c) && bit_set(m.changed, c)) <==> self.slot_changed3(s, p, c));
                    }
                }
                m
            },
        }
    }
}

/// A storage that can check itself.
pub trait StorageLike {
    /// The storage is sound and no slot of it counts as written.
    spec fn settled(&self) -> bool;

    /// Checks the invariants and that every changed mask is clear.
    fn verify_invariants(&self) -> (ok: bool)
        ensures
            ok == self.settled(),
    ;
}

impl<T> StorageLike for Storage<T> {
    open spec fn settled(&self) -> bool {
        self.wf() && self.changed_mask == 0
    }

    fn verify_invariants(&self) -> (ok: bool) {
        Storage::verify_invariants(self) && self.changed_mask == 0
    }
}

/// The generation counter after one more entity is issued: one more than
/// it was, wrapping at the width of the counter, and one more again where
/// that would leave the generation field of an identifier zero.
pub open spec fn next_generation(g: u64) -> u64 {
    let n: u64 = if g == u64::MAX {
        0
    } else {
        (g + 1) as u64
    };
    if n % 0x800_0000_0000 == 0 {
        (n + 1) as u64
    } else {
        n
    }
}

impl Storage<Entity> {
    /// Slot `i` is the lowest slot that holds nothing.
    pub open spec fn is_first_free(&self, i: int) -> bool {
        &&& 0 <= i < 262144
        &&& self@[i].is_none()
        &&& forall|j: int| 0 <= j < i ==> (#[trigger] self@[j]).is_some()
    }

    /// Saves the generation counter into the open journal.
    pub fn save_generation_for_rollback(&mut self)
        requires
            old(self).wf(),
        ensures
            final(self).wf(),
            final(self).rollback.generation_at_tick_start == old(self).generation,
            final(self).journals() == sealed(old(self).journals(), old(self).generation),
            final(self)@ == old(self)@,
            final(self).changed() == old(self).changed(),
            final(self).generation == old(self).generation,
    {
        self.rollback.save_generation(self.generation);
        proof {
            self.lemma_same_tree(old(self));
            assert forall|i: int| 0 <= i < 262144 implies #[trigger] self.record_fits(i) by {
                assert(old(self).record_fits(i));
                assert(self.rollback@[i] == self.rollback.diff(i));
                assert(old(self).rollback@[i] == old(self).rollback.diff(i));
            }
            assert(self.journals() =~= sealed(old(self).journals(), old(self).generation));
        }
    }

    /// Sets the generation counter back to the one saved in the open journal.
    pub fn rollback_generation(&mut self)
        requires
            old(self).wf(),
        ensures
            final(self).wf(),
            final(self).generation == old(self).rollback.generation_at_tick_start,
            final(self).journals() == old(self).journals(),
            final(self)@ == old(self)@,
            final(self).changed() == old(self).changed(),
    {
        self.generation = self.rollback.get_saved_generation();
        proof {
            self.lemma_same_tree(old(self));
            assert forall|i: int| 0 <= i < 262144 implies #[trigger] self.record_fits(i) by {
                assert(old(self).record_fits(i));
            }
        }
    }

    /// Index of the lowest zero bit of a mask, or `None` when it has none.
    pub fn first_0_index(mask: u64) -> (r: Option<usize>)
        ensures
            r.is_none() <==> mask == u64::MAX,
            r.is_some() ==> r.unwrap() < 64 && !bit_set(mask, r.unwrap() as int) && forall|j: int|
                0 <= j < r.unwrap() ==> bit_set(mask, j),
    {
        match first_zero(mask) {
            Some(i) => Some(i as usize),
            None => None,
        }
    }

    /// The lowest slot that holds nothing, found from the fullness masks.
    pub fn first_free_slot(&self) -> (r: Option<u32>)
        requires
            self.tree_wf(),
        ensures
            r.is_some() ==> self.is_first_free(r.unwrap() as int),
            r.is_none() ==> forall|j: int| 0 <= j < 262144 ==> (#[trigger] self@[j]).is_some(),
    {
        let s: u32 = match first_zero(self.fullness_mask) {
            Some(s) => s,
            None => {
                proof {
                    lemma_full_mask(self.fullness_mask);
                    assert forall|j: int| 0 <= j < 262144 implies (#[trigger] self@[j]).is_some() by {
                        lemma_coordinates(j);
                        self.lemma_saturated_page(page_of(j), chunk_of(j), offset_of(j));
                    }
                }
                return None;
            },
        };
        proof {
            assert(self.page_ok(s as int));
            lemma_full_mask(0);
        }
        let mut p: u32 = 0;
        let mut c: u32 = 0;
        match &self.data[s as usize] {
            Some(page) => {
                proof {
                    page.lemma_count();
                }
                match first_zero(page.fullness_mask) {
                    Some(open_chunk) => {
                        p = open_chunk;
                        match &page.data[p as usize] {
                            Some(chunk) => {
                                match first_zero(chunk.presence_mask) {
                                    Some(open_slot) => {
                                        c = open_slot;
                                    },
                                    None => {},
                                }
                            },
                            None => {},
                        }
                    },
                    None => {},
                }
            },
            None => {},
        }
        let index: u32 = s * 4096 + p * 64 + c;
        proof {
            lemma_slot_index(s as int, p as int, c as int);
            assert(self@[index as int] == self.slot3(s as int, p as int, c as int));
            assert forall|j: int| 0 <= j < index implies (#[trigger] self@[j]).is_some() by {
                lemma_coordinates(j);
                let a = page_of(j);
                let b = chunk_of(j);
                let d = offset_of(j);
                if a < s {
                    self.lemma_saturated_page(a, b, d);
                } else {
                    assert(a == s);
                    let page = self.data[s as int].unwrap();
                    if b < p {
                        assert(bit_set(page.fullness_mask, b));
                        let chunk = page.data[b].unwrap();
                        lemma_full_mask(chunk.presence_mask);
                        assert(bit_set(chunk.presence_mask, d));
                    } else {
                        assert(b == p);
                        assert(d < c);
                        let chunk = page.data[p as int].unwrap();
                        assert(bit_set(chunk.presence_mask, d));
                    }
                }
            }
        }
        Some(index)
    }

    /// Issues a new entity: takes the lowest free slot, makes sure that the
    /// open journal is tagged with the frame's tick, advances the
    /// generation counter, and writes the entity there. Fails when every
    /// slot is occupied; the counter advances all the same.
    pub fn spawn(&mut self, frame: &Frame) -> (r: Result<Entity, EcsError>)
        requires
            old(self).wf(),
        ensures
            final(self).wf(),
            final(self).generation == next_generation(old(self).generation),
            r.is_err() <==> (forall|j: int| 0 <= j < 262144 ==> (#[trigger] old(self)@[j]).is_some()),
            r.is_err() ==> r == Err::<Entity, EcsError>(EcsError::NoFreeSlot) && final(self)@ == old(self)@
                && final(self).changed() == old(self).changed() && final(self).journals() == old(self).journals(),
            r.is_ok() ==> ({
                let e = r.unwrap();
                let i = e.index() as int;
                let written = after_set(old(self).model(), frame.current_tick.0, i, e);
                &&& old(self).is_first_free(i)
                &&& e.generation() == final(self).generation % 0x800_0000_0000
                &&& e.generation() != 0
                &&& final(self)@ == written.state
                &&& final(self).journals() == written.journals
                &&& final(self).changed() == old(self).changed().update(i, true)
            }),
    {
        let n: u64 = self.generation.wrapping_add(1);
        let g: u64 = if n % 0x800_0000_0000 == 0 {
            n + 1
        } else {
            n
        };
        let index = match self.first_free_slot() {
            Some(index) => index,
            None => {
                self.generation = g;
                proof {
                    self.lemma_same_tree(old(self));
                    assert forall|i: int| 0 <= i < 262144 implies #[trigger] self.record_fits(i) by {
                        assert(old(self).record_fits(i));
                    }
                    assert(self.journals() =~= old(self).journals());
                }
                return Err(EcsError::NoFreeSlot);
            },
        };
        self.ensure_rollback_tick(frame.current_tick);
        let ghost opened_up = *self;
        self.generation = g;
        proof {
            self.lemma_same_tree(&opened_up);
            assert forall|i: int| 0 <= i < 262144 implies #[trigger] self.record_fits(i) by {
                assert(opened_up.record_fits(i));
            }
            assert(self.journals() =~= opened_up.journals());
        }
        let e = Entity::new(index, g);
        let ghost counted = *self;
        let _done = self.set(frame, index, e);
        proof {
            assert(counted@[index as int].is_none());
            assert(old(self)@[index as int].is_none());
            assert(opened(counted.journals(), frame.current_tick.0, counted.generation) == counted.journals());
        }
        Ok(e)
    }
}

/// Saving a generation into the open journal does not change what a
/// rollback restores.
pub proof fn lemma_rolled_back_sealed<T>(
    state: Seq<Option<T>>,
    journals: Seq<JournalModel<T>>,
    generation: u64,
    target: u32,
)
    requires
        journals.len() > 0,
    ensures
        rolled_back(state, sealed(journals, generation), target) == rolled_back(state, journals, target),
{
    let sj = sealed(journals, generation);
    assert(sj.drop_last() =~= journals.drop_last());
}

} // verus!
