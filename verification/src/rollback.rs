//! The rollback journal of one storage and one tick.
//!
//! A journal mirrors the shape of the storage tree. For every slot that was
//! touched during its tick it keeps one record: that the slot was created,
//! or that it was changed or removed together with the value the slot held
//! before the tick. Undoing every record gives the storage as it stood when
//! the tick began.

use crate::bits::{bit_set, lemma_mask_or, lemma_zero_mask, test_bit, with_bit, without_bit};
use crate::pool::empty_children;
use crate::history::{merged, no_diffs};
use crate::scan::{chunk_of, first_match, hit_at, lemma_coordinates, offset_of, page_of, MaskTree};
use crate::tick::Tick;
use vstd::prelude::*;

verus! {

/// What a journal records of one slot.
pub enum Diff<T> {
    /// The slot is as it was when the tick began.
    Unchanged,
    /// The slot was empty when the tick began and holds a value now.
    Created,
    /// The slot held the given value when the tick began and holds another now.
    Changed(T),
    /// The slot held the given value when the tick began and is empty now.
    Removed(T),
}

impl<T> Diff<T> {
    /// What the slot held when the tick began, given what it holds now.
    pub open spec fn undo(self, current: Option<T>) -> Option<T> {
        match self {
            Diff::Unchanged => current,
            Diff::Created => None,
            Diff::Changed(v) => Some(v),
            Diff::Removed(v) => Some(v),
        }
    }

    /// The record fits what the slot holds now: a created or changed slot
    /// is occupied, a removed one is empty.
    pub open spec fn fits(self, current: Option<T>) -> bool {
        match self {
            Diff::Unchanged => true,
            Diff::Created => current.is_some(),
            Diff::Changed(_) => current.is_some(),
            Diff::Removed(_) => current.is_none(),
        }
    }

    /// The record after a write to the slot, which held `prev` until then.
    /// The first value saved in a tick is kept; a slot created in this tick
    /// stays created; a slot removed in this tick and written again counts
    /// as changed.
    pub open spec fn spec_after_set(self, prev: Option<T>) -> Diff<T> {
        match self {
            Diff::Unchanged => match prev {
                Some(v) => Diff::Changed(v),
                None => Diff::Created,
            },
            Diff::Created => Diff::Created,
            Diff::Changed(x) => Diff::Changed(x),
            Diff::Removed(x) => Diff::Changed(x),
        }
    }

    /// The record after the slot's value `prev` was removed. Removing what
    /// this tick created leaves no record.
    pub open spec fn spec_after_remove(self, prev: T) -> Diff<T> {
        match self {
            Diff::Unchanged => Diff::Removed(prev),
            Diff::Created => Diff::Unchanged,
            Diff::Changed(x) => Diff::Removed(x),
            Diff::Removed(x) => Diff::Removed(x),
        }
    }

    /// The record once the marks of changed slots are dropped: a changed
    /// slot has no record any more, a created or removed one keeps its own.
    pub open spec fn unmarked(self) -> Diff<T> {
        match self {
            Diff::Changed(_) => Diff::Unchanged,
            d => d,
        }
    }

    /// The record says that nothing happened to the slot.
    pub open spec fn spec_is_unchanged(&self) -> bool {
        *self is Unchanged
    }

    /// Whether the record says that nothing happened to the slot.
    #[verifier::when_used_as_spec(spec_is_unchanged)]
    pub fn is_unchanged(&self) -> (b: bool)
        ensures
            b == (*self is Unchanged),
    {
        match self {
            Diff::Unchanged => true,
            _ => false,
        }
    }

    /// The record after a write to the slot, which held `prev` until then.
    pub fn after_set(self, prev: Option<T>) -> (d: Diff<T>)
        ensures
            d == self.spec_after_set(prev),
    {
        match self {
            Diff::Unchanged => match prev {
                Some(v) => Diff::Changed(v),
                None => Diff::Created,
            },
            Diff::Created => Diff::Created,
            Diff::Changed(x) => Diff::Changed(x),
            Diff::Removed(x) => Diff::Changed(x),
        }
    }

    /// The record after the slot's value `prev` was removed.
    pub fn after_remove(self, prev: T) -> (d: Diff<T>)
        ensures
            d == self.spec_after_remove(prev),
    {
        match self {
            Diff::Unchanged => Diff::Removed(prev),
            Diff::Created => Diff::Unchanged,
            Diff::Changed(x) => Diff::Removed(x),
            Diff::Removed(x) => Diff::Removed(x),
        }
    }
}

/// A write within a tick never alters what undoing the tick's record gives,
/// and the record still fits the slot afterwards.
pub proof fn lemma_set_keeps_tick_start<T>(d: Diff<T>, current: Option<T>, value: T)
    requires
        d.fits(current),
    ensures
        d.spec_after_set(current).undo(Some(value)) == d.undo(current),
        d.spec_after_set(current).fits(Some(value)),
{
}

/// A removal within a tick never alters what undoing the tick's record
/// gives, and the record still fits the slot afterwards.
pub proof fn lemma_remove_keeps_tick_start<T>(d: Diff<T>, current: T)
    requires
        d.fits(Some(current)),
    ensures
        d.spec_after_remove(current).undo(None) == d.undo(Some(current)),
        d.spec_after_remove(current).fits(None),
{
}

/// A leaf of the journal: the records of 64 slots.
pub struct RollbackChunk<T> {
    pub created_mask: u64,
    pub changed_mask: u64,
    pub removed_mask: u64,
    /// The value saved for slot `i`, where the slot was changed or removed.
    pub data: Vec<Option<T>>,
}

impl<T> RollbackChunk<T> {
    /// Slot `i` has at most one of the three marks, and a saved value
    /// exactly when it is marked changed or removed.
    pub open spec fn slot_ok(&self, i: int) -> bool {
        &&& !(bit_set(self.created_mask, i) && bit_set(self.changed_mask, i))
        &&& !(bit_set(self.created_mask, i) && bit_set(self.removed_mask, i))
        &&& !(bit_set(self.changed_mask, i) && bit_set(self.removed_mask, i))
        &&& self.data[i].is_some() <==> (bit_set(self.changed_mask, i) || bit_set(self.removed_mask, i))
    }

    /// The leaf invariants: every slot has at most one mark and a saved value exactly where it needs one.
    pub open spec fn wf(&self) -> bool {
        &&& self.data.len() == 64
        &&& forall|i: int| 0 <= i < 64 ==> #[trigger] self.slot_ok(i)
    }

    /// The record of slot `i`.
    pub open spec fn diff(&self, i: int) -> Diff<T> {
        if bit_set(self.created_mask, i) {
            Diff::Created
        } else if bit_set(self.changed_mask, i) && self.data[i].is_some() {
            Diff::Changed(self.data[i].unwrap())
        } else if bit_set(self.removed_mask, i) && self.data[i].is_some() {
            Diff::Removed(self.data[i].unwrap())
        } else {
            Diff::Unchanged
        }
    }

    /// No slot has a record.
    pub open spec fn is_empty(&self) -> bool {
        self.created_mask == 0 && self.changed_mask == 0 && self.removed_mask == 0
    }

    /// A chunk is empty exactly when no slot has a record.
    pub proof fn lemma_empty(&self)
        requires
            self.wf(),
        ensures
            self.is_empty() <==> (forall|i: int| 0 <= i < 64 ==> #[trigger] self.diff(i) is Unchanged),
    {
        lemma_zero_mask(self.created_mask);
        lemma_zero_mask(self.changed_mask);
        lemma_zero_mask(self.removed_mask);
        if forall|i: int| 0 <= i < 64 ==> #[trigger] self.diff(i) is Unchanged {
            assert forall|i: int| 0 <= i < 64 implies !bit_set(self.created_mask, i) && !bit_set(
                self.changed_mask,
                i,
            ) && !bit_set(self.removed_mask, i) by {
                assert(self.diff(i) is Unchanged);
                assert(self.slot_ok(i));
            }
        }
    }

    /// A chunk without a record.
    pub fn new() -> (c: Self)
        ensures
            c.wf(),
            c.is_empty(),
    {
        let data = empty_children::<T>();
        proof {
            lemma_zero_mask(0);
        }
        let c = RollbackChunk { created_mask: 0, changed_mask: 0, removed_mask: 0, data };
        assert forall|i: int| 0 <= i < 64 implies #[trigger] c.slot_ok(i) by {}
        c
    }

    /// Checks the leaf invariants on any value of the type.
    pub fn verify_invariants(&self) -> (ok: bool)
        ensures
            ok == self.wf(),
    {
        if self.data.len() != 64 {
            return false;
        }
        let mut i: u32 = 0;
        while i < 64
            invariant
                i <= 64,
                self.data.len() == 64,
                forall|j: int| 0 <= j < i ==> #[trigger] self.slot_ok(j),
            decreases 64 - i,
        {
            let cr = test_bit(self.created_mask, i);
            let ch = test_bit(self.changed_mask, i);
            let rm = test_bit(self.removed_mask, i);
            if (cr && ch) || (cr && rm) || (ch && rm) || self.data[i as usize].is_some() != (ch || rm) {
                assert(!self.slot_ok(i as int));
                return false;
            }
            i += 1;
        }
        true
    }

    /// Drops the records of changed slots together with their saved values;
    /// created and removed slots keep theirs.
    pub fn clear_changed_masks(&mut self)
        requires
            old(self).wf(),
        ensures
            final(self).wf(),
            final(self).changed_mask == 0,
            forall|i: int| 0 <= i < 64 ==> #[trigger] final(self).diff(i) == old(self).diff(i).unmarked(),
    {
        let mut i: u32 = 0;
        while i < 64
            invariant
                i <= 64,
                old(self).wf(),
                self.data.len() == 64,
                self.created_mask == old(self).created_mask,
                self.changed_mask == old(self).changed_mask,
                self.removed_mask == old(self).removed_mask,
                forall|j: int|
                    0 <= j < i ==> (#[trigger] self.data[j]) == if bit_set(old(self).changed_mask, j) {
                        None
                    } else {
                        old(self).data[j]
                    },
                forall|j: int| i <= j < 64 ==> (#[trigger] self.data[j]) == old(self).data[j],
            decreases 64 - i,
        {
            if test_bit(self.changed_mask, i) {
                self.data[i as usize] = None;
            }
            i += 1;
        }
        self.changed_mask = 0;
        proof {
            lemma_zero_mask(0);
            assert forall|j: int| 0 <= j < 64 implies #[trigger] self.slot_ok(j) && self.diff(j) == old(self).diff(
                j,
            ).unmarked() by {
                assert(old(self).slot_ok(j));
            }
        }
    }

    /// The mask of the slots that have a record.
    pub fn any_mask(&self) -> (m: u64)
        requires
            self.wf(),
        ensures
            forall|c: int| 0 <= c < 64 ==> (#[trigger] bit_set(m, c) <==> !(self.diff(c) is Unchanged)),
            m == 0 <==> self.is_empty(),
    {
        let m = self.created_mask | self.changed_mask | self.removed_mask;
        proof {
            lemma_mask_or(self.created_mask, self.changed_mask);
            lemma_mask_or(self.created_mask | self.changed_mask, self.removed_mask);
            assert forall|c: int| 0 <= c < 64 implies (#[trigger] bit_set(m, c) <==> !(self.diff(c) is Unchanged)) by {
                assert(self.slot_ok(c));
            }
            lemma_zero_mask(m);
            lemma_zero_mask(self.created_mask);
            lemma_zero_mask(self.changed_mask);
            lemma_zero_mask(self.removed_mask);
            if m == 0 {
                assert forall|j: int| 0 <= j < 64 implies !bit_set(self.created_mask, j) && !bit_set(
                    self.changed_mask,
                    j,
                ) && !bit_set(self.removed_mask, j) by {
                    assert(!bit_set(m, j));
                    assert(bit_set(self.created_mask | self.changed_mask, j) == (bit_set(self.created_mask, j)
                        || bit_set(self.changed_mask, j)));
                }
            }
            if self.is_empty() {
                assert forall|j: int| 0 <= j < 64 implies !bit_set(m, j) by {
                    assert(bit_set(self.created_mask | self.changed_mask, j) == (bit_set(self.created_mask, j)
                        || bit_set(self.changed_mask, j)));
                }
            }
        }
        m
    }

    /// Writes the record of a slot that has none.
    pub fn record(&mut self, i: u32, d: Diff<T>)
        requires
            old(self).wf(),
            i < 64,
            old(self).diff(i as int) is Unchanged,
        ensures
            final(self).wf(),
            final(self).diff(i as int) == d,
            forall|j: int| 0 <= j < 64 && j != i ==> #[trigger] final(self).diff(j) == old(self).diff(j),
            !(d is Unchanged) ==> !final(self).is_empty(),
            d is Unchanged ==> final(self).is_empty() == old(self).is_empty(),
    {
        proof {
            assert(old(self).slot_ok(i as int));
        }
        match d {
            Diff::Unchanged => {},
            Diff::Created => {
                self.created_mask = with_bit(self.created_mask, i);
            },
            Diff::Changed(v) => {
                self.data[i as usize] = Some(v);
                self.changed_mask = with_bit(self.changed_mask, i);
            },
            Diff::Removed(v) => {
                self.data[i as usize] = Some(v);
                self.removed_mask = with_bit(self.removed_mask, i);
            },
        }
        proof {
            lemma_zero_mask(self.created_mask);
            lemma_zero_mask(self.changed_mask);
            lemma_zero_mask(self.removed_mask);
            assert forall|j: int| 0 <= j < 64 implies #[trigger] self.slot_ok(j) by {
                assert(old(self).slot_ok(j));
            }
            assert forall|j: int| 0 <= j < 64 && j != i implies #[trigger] self.diff(j) == old(self).diff(j) by {
                assert(old(self).slot_ok(j));
            }
            if !(d is Unchanged) {
                assert(bit_set(self.created_mask, i as int) || bit_set(self.changed_mask, i as int) || bit_set(
                    self.removed_mask,
                    i as int,
                ));
            }
        }
    }

    /// Takes the record of slot `i` out of the journal.
    pub fn take_diff(&mut self, i: u32) -> (d: Diff<T>)
        requires
            old(self).wf(),
            i < 64,
        ensures
            final(self).wf(),
            d == old(self).diff(i as int),
            final(self).diff(i as int) is Unchanged,
            forall|j: int| 0 <= j < 64 && j != i ==> #[trigger] final(self).diff(j) == old(self).diff(j),
    {
        proof {
            assert(old(self).slot_ok(i as int));
        }
        let mut d = Diff::Unchanged;
        if test_bit(self.created_mask, i) {
            self.created_mask = without_bit(self.created_mask, i);
            d = Diff::Created;
        } else if test_bit(self.changed_mask, i) {
            self.changed_mask = without_bit(self.changed_mask, i);
            match self.data[i as usize].take() {
                Some(v) => {
                    d = Diff::Changed(v);
                },
                None => {},
            }
        } else if test_bit(self.removed_mask, i) {
            self.removed_mask = without_bit(self.removed_mask, i);
            match self.data[i as usize].take() {
                Some(v) => {
                    d = Diff::Removed(v);
                },
                None => {},
            }
        }
        proof {
            assert forall|j: int| 0 <= j < 64 implies #[trigger] self.slot_ok(j) by {
                assert(old(self).slot_ok(j));
            }
            assert forall|j: int| 0 <= j < 64 && j != i implies #[trigger] self.diff(j) == old(self).diff(j) by {
                assert(old(self).slot_ok(j));
            }
        }
        d
    }

    /// The value saved for slot `i`, where the slot is recorded as changed.
    pub fn saved(&self, i: u32) -> (r: Option<&T>)
        requires
            self.wf(),
            i < 64,
        ensures
            r.is_some() == (self.diff(i as int) is Changed),
            r.is_some() ==> self.diff(i as int) == Diff::Changed(*r.unwrap()),
    {
        proof {
            assert(self.slot_ok(i as int));
        }
        if test_bit(self.changed_mask, i) {
            self.data[i as usize].as_ref()
        } else {
            None
        }
    }
}

impl<T> Default for RollbackChunk<T> {
    fn default() -> (c: Self)
        ensures
            c.wf(),
            c.is_empty(),
    {
        RollbackChunk::new()
    }
}

/// An interior node of the journal: the chunks of one page that hold a record.
pub struct RollbackPage<T> {
    /// Bit `p` is set iff chunk `p` holds a record.
    pub changed_mask: u64,
    pub data: Vec<Option<RollbackChunk<T>>>,
}

impl<T> RollbackPage<T> {
    /// Chunk `p` is kept exactly while it holds a record, and its bit says so.
    pub open spec fn child_ok(&self, p: int) -> bool {
        &&& bit_set(self.changed_mask, p) <==> self.data[p].is_some()
        &&& self.data[p].is_some() ==> self.data[p].unwrap().wf() && !self.data[p].unwrap().is_empty()
    }

    /// Every chunk of the page is kept exactly while it holds a record.
    pub open spec fn wf(&self) -> bool {
        &&& self.data.len() == 64
        &&& forall|p: int| 0 <= p < 64 ==> #[trigger] self.child_ok(p)
    }

    /// The record of slot `c` of chunk `p`.
    pub open spec fn diff(&self, p: int, c: int) -> Diff<T> {
        match self.data[p] {
            Some(ch) => ch.diff(c),
            None => Diff::Unchanged,
        }
    }

    /// No chunk of the page holds a record.
    pub open spec fn is_empty(&self) -> bool {
        self.changed_mask == 0
    }

    /// A page without a record.
    pub fn new() -> (page: Self)
        ensures
            page.wf(),
            page.is_empty(),
            forall|p: int, c: int| 0 <= p < 64 ==> #[trigger] page.diff(p, c) is Unchanged,
    {
        let data = empty_children::<RollbackChunk<T>>();
        proof {
            lemma_zero_mask(0);
        }
        let page = RollbackPage { changed_mask: 0, data };
        assert forall|p: int| 0 <= p < 64 implies #[trigger] page.child_ok(p) by {}
        assert forall|p: int, c: int| 0 <= p < 64 implies #[trigger] page.diff(p, c) is Unchanged by {
            assert(page.data[p].is_none());
        }
        page
    }

    /// Chunk `index`, where it holds a record.
    pub fn get(&self, index: u32) -> (r: Option<&RollbackChunk<T>>)
        requires
            self.wf(),
        ensures
            r.is_some() == (index < 64 && self.data[index as int].is_some()),
            r.is_some() ==> *r.unwrap() == self.data[index as int].unwrap(),
    {
        if index >= 64 {
            return None;
        }
        self.data[index as usize].as_ref()
    }

    /// Checks the invariants of the page and of its chunks on any value of
    /// the type.
    pub fn verify_invariants(&self) -> (ok: bool)
        ensures
            ok == self.wf(),
    {
        if self.data.len() != 64 {
            return false;
        }
        let mut p: u32 = 0;
        while p < 64
            invariant
                p <= 64,
                self.data.len() == 64,
                forall|q: int| 0 <= q < p ==> #[trigger] self.child_ok(q),
            decreases 64 - p,
        {
            let marked = test_bit(self.changed_mask, p);
            match &self.data[p as usize] {
                Some(chunk) => {
                    if !marked || !chunk.verify_invariants() {
                        assert(!self.child_ok(p as int));
                        return false;
                    }
                    if chunk.any_mask() == 0 {
                        assert(!self.child_ok(p as int));
                        return false;
                    }
                },
                None => {
                    if marked {
                        assert(!self.child_ok(p as int));
                        return false;
                    }
                },
            }
            p += 1;
        }
        true
    }

    /// The mask of the slots of chunk `p` that have a record.
    pub fn chunk_mask(&self, p: u32) -> (m: u64)
        requires
            self.wf(),
            p < 64,
        ensures
            forall|c: int| 0 <= c < 64 ==> (#[trigger] bit_set(m, c) <==> !(self.diff(p as int, c) is Unchanged)),
    {
        proof {
            assert(self.child_ok(p as int));
            lemma_zero_mask(0);
        }
        match &self.data[p as usize] {
            Some(chunk) => chunk.any_mask(),
            None => 0,
        }
    }

    /// Writes the record of a slot that has none.
    pub fn record(&mut self, p: u32, c: u32, d: Diff<T>)
        requires
            old(self).wf(),
            p < 64,
            c < 64,
            old(self).diff(p as int, c as int) is Unchanged,
        ensures
            final(self).wf(),
            final(self).diff(p as int, c as int) == d,
            forall|q: int, e: int|
                0 <= q < 64 && 0 <= e < 64 && !(q == p && e == c) ==> #[trigger] final(self).diff(q, e) == old(self).diff(q, e),
            !(d is Unchanged) ==> !final(self).is_empty(),
            d is Unchanged ==> final(self).changed_mask == old(self).changed_mask,
    {
        if d.is_unchanged() {
            return ;
        }
        proof {
            assert(old(self).child_ok(p as int));
        }
        if self.data[p as usize].is_none() {
            self.data[p as usize] = Some(RollbackChunk::new());
        }
        let ghost mid = *self;
        proof {
            mid.data[p as int].unwrap().lemma_empty();
        }
        match &mut self.data[p as usize] {
            Some(chunk) => {
                chunk.record(c, d);
            },
            None => {},
        }
        self.changed_mask = with_bit(self.changed_mask, p);
        proof {
            lemma_zero_mask(self.changed_mask);
            assert(bit_set(self.changed_mask, p as int));
            let och = mid.data[p as int].unwrap();
            assert forall|e: int| 0 <= e < 64 implies #[trigger] och.diff(e) == old(self).diff(p as int, e) by {
                if old(self).data[p as int].is_none() {
                    assert(och.diff(e) is Unchanged);
                }
            }
            assert forall|q: int| 0 <= q < 64 implies #[trigger] self.child_ok(q) by {
                assert(old(self).child_ok(q));
            }
            assert forall|q: int, e: int| 0 <= q < 64 && 0 <= e < 64 && !(q == p && e == c) implies #[trigger] self.diff(
                q,
                e,
            ) == old(self).diff(q, e) by {
                if q == p {
                    assert(och.diff(e) == old(self).diff(p as int, e));
                }
            }
        }
    }

    /// Takes the record of slot `c` of chunk `p` out of the journal, and
    /// drops the chunk when that was its last record.
    pub fn take_diff(&mut self, p: u32, c: u32) -> (d: Diff<T>)
        requires
            old(self).wf(),
            p < 64,
            c < 64,
        ensures
            final(self).wf(),
            d == old(self).diff(p as int, c as int),
            final(self).diff(p as int, c as int) is Unchanged,
            forall|q: int, e: int|
                0 <= q < 64 && 0 <= e < 64 && !(q == p && e == c) ==> #[trigger] final(self).diff(q, e) == old(self).diff(q, e),
    {
        proof {
            assert(old(self).child_ok(p as int));
        }
        if self.data[p as usize].is_none() {
            return Diff::Unchanged;
        }
        let mut d = Diff::Unchanged;
        let mut now_empty = false;
        match &mut self.data[p as usize] {
            Some(chunk) => {
                d = chunk.take_diff(c);
                now_empty = chunk.any_mask() == 0;
            },
            None => {},
        }
        let ghost mid = *self;
        if now_empty {
            self.data[p as usize] = None;
            self.changed_mask = without_bit(self.changed_mask, p);
        }
        proof {
            let mch = mid.data[p as int].unwrap();
            mch.lemma_empty();
            assert forall|q: int| 0 <= q < 64 implies #[trigger] self.child_ok(q) by {
                assert(old(self).child_ok(q));
            }
            assert forall|q: int, e: int| 0 <= q < 64 && 0 <= e < 64 && !(q == p && e == c) implies #[trigger] self.diff(
                q,
                e,
            ) == old(self).diff(q, e) by {
                if q == p {
                    assert(mch.diff(e) == old(self).data[p as int].unwrap().diff(e));
                    if now_empty {
                        assert(mch.diff(e) is Unchanged);
                    }
                }
            }
        }
        d
    }

    /// Drops, in every chunk of the page, the records of changed slots
    /// together with their saved values, and the chunks that are left
    /// without a record; created and removed slots keep theirs.
    pub fn clear_changed_masks(&mut self)
        requires
            old(self).wf(),
        ensures
            final(self).wf(),
            forall|p: int, c: int|
                0 <= p < 64 && 0 <= c < 64 ==> #[trigger] final(self).diff(p, c) == old(self).diff(p, c).unmarked(),
    {
        let mut p: u32 = 0;
        while p < 64
            invariant
                p <= 64,
                old(self).wf(),
                self.data.len() == 64,
                forall|q: int| 0 <= q < p ==> #[trigger] self.child_ok(q),
                forall|q: int, c: int|
                    0 <= q < p && 0 <= c < 64 ==> #[trigger] self.diff(q, c) == old(self).diff(q, c).unmarked(),
                forall|q: int| p <= q < 64 ==> (#[trigger] self.data[q]) == old(self).data[q],
                forall|q: int| p <= q < 64 ==> bit_set(self.changed_mask, q) == bit_set(old(self).changed_mask, q),
            decreases 64 - p,
        {
            let ghost before = *self;
            let mut now_empty = false;
            match &mut self.data[p as usize] {
                Some(chunk) => {
                    proof {
                        assert(old(self).child_ok(p as int));
                    }
                    chunk.clear_changed_masks();
                    now_empty = chunk.any_mask() == 0;
                },
                None => {},
            }
            let ghost mid = *self;
            if now_empty {
                self.data[p as usize] = None;
                self.changed_mask = without_bit(self.changed_mask, p);
            }
            proof {
                lemma_zero_mask(0);
                assert(old(self).child_ok(p as int));
                if mid.data[p as int].is_some() {
                    mid.data[p as int].unwrap().lemma_empty();
                }
                assert forall|q: int| 0 <= q < p + 1 implies #[trigger] self.child_ok(q) by {
                    if q < p {
                        assert(before.child_ok(q));
                    }
                }
                assert forall|q: int, c: int| 0 <= q < p + 1 && 0 <= c < 64 implies #[trigger] self.diff(q, c) == old(
                    self,
                ).diff(q, c).unmarked() by {
                    if q < p {
                        assert(before.diff(q, c) == old(self).diff(q, c).unmarked());
                    } else if mid.data[p as int].is_some() {
                        let was = old(self).data[p as int].unwrap();
                        let now = mid.data[p as int].unwrap();
                        assert(now.diff(c) == was.diff(c).unmarked());
                    }
                }
            }
            p += 1;
        }
    }
}

/// The journal of one storage for one tick.
pub struct RollbackStorage<T> {
    /// Bit `s` is set iff page `s` holds a record.
    pub changed_mask: u64,
    /// The tick whose changes the journal records.
    pub tick: Tick,
    pub data: Vec<Option<RollbackPage<T>>>,
    /// The entity generation counter as it was saved into this journal.
    pub generation_at_tick_start: u64,
}

impl<T> View for RollbackStorage<T> {
    type V = Seq<Diff<T>>;

    /// The record of every slot, by slot index.
    open spec fn view(&self) -> Seq<Diff<T>> {
        Seq::new(262144, |i: int| self.diff(i))
    }
}

impl<T> RollbackStorage<T> {
    /// Page `s` is kept exactly while it holds a record, and its bit says so.
    pub open spec fn child_ok(&self, s: int) -> bool {
        &&& bit_set(self.changed_mask, s) <==> self.data[s].is_some()
        &&& self.data[s].is_some() ==> self.data[s].unwrap().wf() && !self.data[s].unwrap().is_empty()
    }

    /// The journal invariants, at every level of the tree.
    pub open spec fn wf(&self) -> bool {
        &&& self.data.len() == 64
        &&& forall|s: int| 0 <= s < 64 ==> #[trigger] self.child_ok(s)
    }

    /// The record of slot `c` of chunk `p` of page `s`.
    pub open spec fn diff3(&self, s: int, p: int, c: int) -> Diff<T> {
        match self.data[s] {
            Some(page) => page.diff(p, c),
            None => Diff::Unchanged,
        }
    }

    /// The record of a slot, by slot index.
    pub open spec fn diff(&self, index: int) -> Diff<T> {
        if 0 <= index < 262144 {
            self.diff3(page_of(index), chunk_of(index), offset_of(index))
        } else {
            Diff::Unchanged
        }
    }

    /// No slot has a record.
    pub open spec fn is_empty(&self) -> bool {
        self.changed_mask == 0
    }

    /// An empty journal has no record of any slot.
    pub proof fn lemma_empty(&self)
        requires
            self.wf(),
            self.is_empty(),
        ensures
            forall|i: int| #[trigger] self.diff(i) is Unchanged,
            self@ == Seq::new(262144, |i: int| Diff::<T>::Unchanged),
    {
        lemma_zero_mask(0);
        assert forall|i: int| #[trigger] self.diff(i) is Unchanged by {
            if 0 <= i < 262144 {
                lemma_coordinates(i);
                assert(self.child_ok(page_of(i)));
            }
        }
        assert(self@ =~= Seq::new(262144, |i: int| Diff::<T>::Unchanged));
    }

    /// An empty journal for tick zero.
    pub fn new() -> (j: Self)
        ensures
            j.wf(),
            j.is_empty(),
            j.tick == Tick(0),
            j.generation_at_tick_start == 0,
    {
        RollbackStorage::with_tick(Tick(0))
    }

    /// An empty journal for the given tick.
    pub fn with_tick(tick: Tick) -> (j: Self)
        ensures
            j.wf(),
            j.is_empty(),
            j.tick == tick,
            j.generation_at_tick_start == 0,
    {
        let data = empty_children::<RollbackPage<T>>();
        proof {
            lemma_zero_mask(0);
        }
        let j = RollbackStorage { changed_mask: 0, tick, data, generation_at_tick_start: 0 };
        assert forall|s: int| 0 <= s < 64 implies #[trigger] j.child_ok(s) by {}
        j
    }

    /// Empties the journal and tags it with a new tick.
    pub fn reset_for_tick(&mut self, tick: Tick)
        ensures
            final(self).wf(),
            final(self).is_empty(),
            final(self).tick == tick,
            final(self).generation_at_tick_start == 0,
    {
        self.data = empty_children::<RollbackPage<T>>();
        self.changed_mask = 0;
        self.generation_at_tick_start = 0;
        self.tick = tick;
        proof {
            lemma_zero_mask(0);
            assert forall|s: int| 0 <= s < 64 implies #[trigger] self.child_ok(s) by {}
        }
    }

    /// Saves the entity generation counter into the journal.
    pub fn save_generation(&mut self, generation: u64)
        ensures
            final(self).generation_at_tick_start == generation,
            final(self).changed_mask == old(self).changed_mask,
            final(self).tick == old(self).tick,
            final(self).data == old(self).data,
            final(self)@ == old(self)@,
            old(self).wf() ==> final(self).wf(),
    {
        self.generation_at_tick_start = generation;
        proof {
            assert(self@ =~= old(self)@);
            if old(self).wf() {
                assert forall|s: int| 0 <= s < 64 implies #[trigger] self.child_ok(s) by {
                    assert(old(self).child_ok(s));
                }
            }
        }
    }

    /// The generation counter that was saved into the journal.
    pub fn get_saved_generation(&self) -> (g: u64)
        ensures
            g == self.generation_at_tick_start,
    {
        self.generation_at_tick_start
    }

    /// Forgets the saved generation counter.
    pub fn clear_saved_generation(&mut self)
        ensures
            final(self).generation_at_tick_start == 0,
            final(self).changed_mask == old(self).changed_mask,
            final(self).tick == old(self).tick,
            final(self).data == old(self).data,
            final(self)@ == old(self)@,
            old(self).wf() ==> final(self).wf(),
    {
        self.generation_at_tick_start = 0;
        proof {
            assert(self@ =~= old(self)@);
            if old(self).wf() {
                assert forall|s: int| 0 <= s < 64 implies #[trigger] self.child_ok(s) by {
                    assert(old(self).child_ok(s));
                }
            }
        }
    }

    /// The tick whose changes the journal records.
    pub fn tick(&self) -> (t: Tick)
        ensures
            t == self.tick,
    {
        self.tick
    }

    /// Tags the journal with another tick.
    pub fn set_tick(&mut self, tick: Tick)
        ensures
            final(self).tick == tick,
            final(self).changed_mask == old(self).changed_mask,
            final(self).generation_at_tick_start == old(self).generation_at_tick_start,
            final(self).data == old(self).data,
            final(self)@ == old(self)@,
            old(self).wf() ==> final(self).wf(),
    {
        self.tick = tick;
        proof {
            assert(self@ =~= old(self)@);
            if old(self).wf() {
                assert forall|s: int| 0 <= s < 64 implies #[trigger] self.child_ok(s) by {
                    assert(old(self).child_ok(s));
                }
            }
        }
    }

    /// Page `index`, where it holds a record.
    pub fn get_page(&self, index: u32) -> (r: Option<&RollbackPage<T>>)
        requires
            self.wf(),
        ensures
            r.is_some() == (index < 64 && self.data[index as int].is_some()),
            r.is_some() ==> *r.unwrap() == self.data[index as int].unwrap(),
    {
        if index >= 64 {
            return None;
        }
        self.data[index as usize].as_ref()
    }

    /// Whether the slot is recorded as created.
    pub fn verify_was_created(&self, index: u32) -> (b: bool)
        requires
            self.wf(),
        ensures
            b == (self.diff(index as int) is Created),
    {
        if index >= 262144 {
            return false;
        }
        let s: u32 = index / 4096;
        let p: u32 = (index / 64) % 64;
        let c: u32 = index % 64;
        proof {
            assert(self.child_ok(s as int));
        }
        match &self.data[s as usize] {
            Some(page) => {
                proof {
                    assert(page.child_ok(p as int));
                }
                match &page.data[p as usize] {
                    Some(chunk) => {
                        proof {
                            assert(chunk.slot_ok(c as int));
                        }
                        test_bit(chunk.created_mask, c)
                    },
                    None => false,
                }
            },
            None => false,
        }
    }

    /// Whether the slot is recorded as changed.
    pub fn verify_was_modified(&self, index: u32) -> (b: bool)
        requires
            self.wf(),
        ensures
            b == (self.diff(index as int) is Changed),
    {
        if index >= 262144 {
            return false;
        }
        let s: u32 = index / 4096;
        let p: u32 = (index / 64) % 64;
        let c: u32 = index % 64;
        proof {
            assert(self.child_ok(s as int));
        }
        match &self.data[s as usize] {
            Some(page) => {
                proof {
                    assert(page.child_ok(p as int));
                }
                match &page.data[p as usize] {
                    Some(chunk) => {
                        proof {
                            assert(chunk.slot_ok(c as int));
                        }
                        test_bit(chunk.changed_mask, c)
                    },
                    None => false,
                }
            },
            None => false,
        }
    }

    /// Whether the slot is recorded as removed.
    pub fn verify_was_removed(&self, index: u32) -> (b: bool)
        requires
            self.wf(),
        ensures
            b == (self.diff(index as int) is Removed),
    {
        if index >= 262144 {
            return false;
        }
        let s: u32 = index / 4096;
        let p: u32 = (index / 64) % 64;
        let c: u32 = index % 64;
        proof {
            assert(self.child_ok(s as int));
        }
        match &self.data[s as usize] {
            Some(page) => {
                proof {
                    assert(page.child_ok(p as int));
                }
                match &page.data[p as usize] {
                    Some(chunk) => {
                        proof {
                            assert(chunk.slot_ok(c as int));
                        }
                        test_bit(chunk.removed_mask, c)
                    },
                    None => false,
                }
            },
            None => false,
        }
    }

    /// Whether the journal has no record of the slot. Out of range there is
    /// none.
    pub fn verify_not_changed(&self, index: u32) -> (b: bool)
        requires
            self.wf(),
        ensures
            b == (self.diff(index as int) is Unchanged),
    {
        if index >= 262144 {
            return true;
        }
        let s: u32 = index / 4096;
        let p: u32 = (index / 64) % 64;
        let c: u32 = index % 64;
        proof {
            assert(self.child_ok(s as int));
        }
        match &self.data[s as usize] {
            Some(page) => {
                proof {
                    assert(page.child_ok(p as int));
                }
                match &page.data[p as usize] {
                    Some(chunk) => {
                        proof {
                            assert(chunk.slot_ok(c as int));
                        }
                        !test_bit(chunk.created_mask, c) && !test_bit(chunk.changed_mask, c) && !test_bit(
                            chunk.removed_mask,
                            c,
                        )
                    },
                    None => true,
                }
            },
            None => true,
        }
    }

    /// The value saved for the slot, where the slot is recorded as changed.
    pub fn get(&self, index: u32) -> (r: Option<&T>)
        requires
            self.wf(),
        ensures
            r.is_some() == (self.diff(index as int) is Changed),
            r.is_some() ==> self.diff(index as int) == Diff::Changed(*r.unwrap()),
    {
        if index >= 262144 {
            return None;
        }
        let s: u32 = index / 4096;
        let p: u32 = (index / 64) % 64;
        let c: u32 = index % 64;
        proof {
            assert(self.child_ok(s as int));
        }
        match &self.data[s as usize] {
            Some(page) => {
                proof {
                    assert(page.child_ok(p as int));
                }
                match &page.data[p as usize] {
                    Some(chunk) => chunk.saved(c),
                    None => None,
                }
            },
            None => None,
        }
    }

    /// Checks the journal invariants at every level on any value of the type.
    pub fn verify_invariants(&self) -> (ok: bool)
        ensures
            ok == self.wf(),
    {
        if self.data.len() != 64 {
            return false;
        }
        let mut s: u32 = 0;
        while s < 64
            invariant
                s <= 64,
                self.data.len() == 64,
                forall|q: int| 0 <= q < s ==> #[trigger] self.child_ok(q),
            decreases 64 - s,
        {
            let marked = test_bit(self.changed_mask, s);
            match &self.data[s as usize] {
                Some(page) => {
                    if !marked || !page.verify_invariants() || page.changed_mask == 0 {
                        assert(!self.child_ok(s as int));
                        return false;
                    }
                },
                None => {
                    if marked {
                        assert(!self.child_ok(s as int));
                        return false;
                    }
                },
            }
            s += 1;
        }
        true
    }

    /// Writes the record of a slot that has none.
    pub fn record(&mut self, index: u32, d: Diff<T>)
        requires
            old(self).wf(),
            index < 262144,
            old(self).diff(index as int) is Unchanged,
        ensures
            final(self).wf(),
            final(self)@ == old(self)@.update(index as int, d),
            final(self).tick == old(self).tick,
            final(self).generation_at_tick_start == old(self).generation_at_tick_start,
    {
        let s: u32 = index / 4096;
        let p: u32 = (index / 64) % 64;
        let c: u32 = index % 64;
        proof {
            assert(old(self).child_ok(s as int));
        }
        if d.is_unchanged() {
            assert(self@ =~= old(self)@.update(index as int, d));
            return ;
        }
        if self.data[s as usize].is_none() {
            self.data[s as usize] = Some(RollbackPage::new());
        }
        let ghost mid = *self;
        match &mut self.data[s as usize] {
            Some(page) => {
                page.record(p, c, d);
            },
            None => {},
        }
        self.changed_mask = with_bit(self.changed_mask, s);
        proof {
            let opg = mid.data[s as int].unwrap();
            assert forall|q: int, e: int| 0 <= q < 64 && 0 <= e < 64 implies #[trigger] opg.diff(q, e) == old(self).diff3(s as int, q, e) by {}
            assert forall|q: int| 0 <= q < 64 implies #[trigger] self.child_ok(q) by {
                assert(old(self).child_ok(q));
            }
            assert forall|j: int| 0 <= j < 262144 implies self@[j] == old(self)@.update(index as int, d)[j] by {
                lemma_coordinates(j);
                lemma_coordinates(index as int);
                if page_of(j) == s {
                    assert(opg.diff(chunk_of(j), offset_of(j)) == old(self).diff3(s as int, chunk_of(j), offset_of(j)));
                }
            }
            assert(self@ =~= old(self)@.update(index as int, d));
        }
    }

    /// Takes the record of a slot out of the journal, and drops the nodes
    /// that held nothing else.
    pub fn take_diff(&mut self, index: u32) -> (d: Diff<T>)
        requires
            old(self).wf(),
            index < 262144,
        ensures
            final(self).wf(),
            d == old(self).diff(index as int),
            final(self)@ == old(self)@.update(index as int, Diff::Unchanged),
            final(self).tick == old(self).tick,
            final(self).generation_at_tick_start == old(self).generation_at_tick_start,
    {
        let s: u32 = index / 4096;
        let p: u32 = (index / 64) % 64;
        let c: u32 = index % 64;
        proof {
            assert(old(self).child_ok(s as int));
        }
        if self.data[s as usize].is_none() {
            assert(self@ =~= old(self)@.update(index as int, Diff::Unchanged));
            return Diff::Unchanged;
        }
        let mut d = Diff::Unchanged;
        let mut now_empty = false;
        match &mut self.data[s as usize] {
            Some(page) => {
                d = page.take_diff(p, c);
                now_empty = page.changed_mask == 0;
            },
            None => {},
        }
        let ghost mid = *self;
        if now_empty {
            self.data[s as usize] = None;
            self.changed_mask = without_bit(self.changed_mask, s);
        }
        proof {
            let mpg = mid.data[s as int].unwrap();
            lemma_zero_mask(0);
            assert forall|q: int| 0 <= q < 64 implies #[trigger] self.child_ok(q) by {
                assert(old(self).child_ok(q));
            }
            assert forall|j: int| 0 <= j < 262144 implies self@[j] == old(self)@.update(
                index as int,
                Diff::Unchanged,
            )[j] by {
                lemma_coordinates(j);
                lemma_coordinates(index as int);
                if page_of(j) == s {
                    let q = chunk_of(j);
                    let e = offset_of(j);
                    if j != index {
                        assert(mpg.diff(q, e) == old(self).data[s as int].unwrap().diff(q, e));
                    }
                    if now_empty {
                        assert(mpg.child_ok(q));
                    }
                }
            }
            assert(self@ =~= old(self)@.update(index as int, Diff::Unchanged));
        }
        d
    }

    /// Drops, at every level of the journal, the records of changed slots
    /// together with their saved values, and the nodes that are left
    /// without a record; created and removed slots keep theirs.
    pub fn clear_changed_masks(&mut self)
        requires
            old(self).wf(),
        ensures
            final(self).wf(),
            final(self)@ == Seq::new(262144, |i: int| old(self).diff(i).unmarked()),
            final(self).tick == old(self).tick,
            final(self).generation_at_tick_start == old(self).generation_at_tick_start,
    {
        let mut s: u32 = 0;
        while s < 64
            invariant
                s <= 64,
                old(self).wf(),
                self.data.len() == 64,
                self.tick == old(self).tick,
                self.generation_at_tick_start == old(self).generation_at_tick_start,
                forall|q: int| 0 <= q < s ==> #[trigger] self.child_ok(q),
                forall|q: int, p: int, c: int|
                    0 <= q < s && 0 <= p < 64 && 0 <= c < 64 ==> #[trigger] self.diff3(q, p, c) == old(self).diff3(
                        q,
                        p,
                        c,
                    ).unmarked(),
                forall|q: int| s <= q < 64 ==> (#[trigger] self.data[q]) == old(self).data[q],
                forall|q: int| s <= q < 64 ==> bit_set(self.changed_mask, q) == bit_set(old(self).changed_mask, q),
            decreases 64 - s,
        {
            let ghost before = *self;
            let mut now_empty = false;
            match &mut self.data[s as usize] {
                Some(page) => {
                    proof {
                        assert(old(self).child_ok(s as int));
                    }
                    page.clear_changed_masks();
                    now_empty = page.changed_mask == 0;
                },
                None => {},
            }
            let ghost mid = *self;
            if now_empty {
                self.data[s as usize] = None;
                self.changed_mask = without_bit(self.changed_mask, s);
            }
            proof {
                lemma_zero_mask(0);
                assert(old(self).child_ok(s as int));
                assert forall|q: int| 0 <= q < s + 1 implies #[trigger] self.child_ok(q) by {
                    if q < s {
                        assert(before.child_ok(q));
                    }
                }
                assert forall|q: int, p: int, c: int| 0 <= q < s + 1 && 0 <= p < 64 && 0 <= c < 64 implies #[trigger] self.diff3(
                    q,
                    p,
                    c,
                ) == old(self).diff3(q, p, c).unmarked() by {
                    if q < s {
                        assert(before.diff3(q, p, c) == old(self).diff3(q, p, c).unmarked());
                    } else if mid.data[s as int].is_some() {
                        let was = old(self).data[s as int].unwrap();
                        let now = mid.data[s as int].unwrap();
                        assert(now.diff(p, c) == was.diff(p, c).unmarked());
                        if now_empty {
                            assert(now.child_ok(p));
                        }
                    }
                }
            }
            s += 1;
        }
        proof {
            assert forall|j: int| 0 <= j < 262144 implies self@[j] == old(self).diff(j).unmarked() by {
                lemma_coordinates(j);
                assert(self.diff3(page_of(j), chunk_of(j), offset_of(j)) == old(self).diff3(
                    page_of(j),
                    chunk_of(j),
                    offset_of(j),
                ).unmarked());
            }
            assert(self@ =~= Seq::new(262144, |i: int| old(self).diff(i).unmarked()));
        }
    }

    /// Takes over the records of a newer journal: every record of `newer`
    /// at a slot of which this journal has none moves here, and the other
    /// records of `newer` are dropped with their saved values. A slot keeps
    /// the oldest record that the two journals have of it.
    pub fn absorb(&mut self, newer: &mut RollbackStorage<T>)
        requires
            old(self).wf(),
            old(newer).wf(),
        ensures
            final(self).wf(),
            final(newer).wf(),
            final(self)@ == merged(old(self)@, old(newer)@),
            final(newer)@ == no_diffs::<T>(),
            final(self).tick == old(self).tick,
            final(self).generation_at_tick_start == old(self).generation_at_tick_start,
            final(newer).tick == old(newer).tick,
            final(newer).generation_at_tick_start == old(newer).generation_at_tick_start,
    {
        let ghost o0 = self@;
        let ghost n0 = newer@;
        let mut cur = first_match(&*newer, 0);
        let ghost mut done: int = if cur.is_some() {
            cur.unwrap() as int
        } else {
            262144
        };
        proof {
            assert forall|i: int| 0 <= i < done implies (#[trigger] newer@[i]) is Unchanged by {
                assert(!hit_at(&*newer, i));
                lemma_coordinates(i);
            }
        }
        while cur.is_some()
            invariant
                self.wf(),
                newer.wf(),
                self.tick == old(self).tick,
                self.generation_at_tick_start == old(self).generation_at_tick_start,
                newer.tick == old(newer).tick,
                newer.generation_at_tick_start == old(newer).generation_at_tick_start,
                o0.len() == 262144,
                n0.len() == 262144,
                0 <= done <= 262144,
                cur.is_some() ==> cur.unwrap() == done && done < 262144,
                cur.is_none() ==> done == 262144,
                forall|i: int| 0 <= i < done ==> self@[i] == merged(o0, n0)[i],
                forall|i: int| 0 <= i < done ==> (#[trigger] newer@[i]) is Unchanged,
                forall|i: int| done <= i < 262144 ==> self@[i] == o0[i] && newer@[i] == n0[i],
            decreases 262144 - done,
        {
            let i = cur.unwrap();
            let ghost before = self@;
            let ghost newer_before = newer@;
            assert(self@[i as int] == self.diff(i as int));
            let d = newer.take_diff(i);
            if self.verify_not_changed(i) {
                self.record(i, d);
            }
            cur = first_match(&*newer, i + 1);
            proof {
                let next: int = if cur.is_some() {
                    cur.unwrap() as int
                } else {
                    262144
                };
                assert(self@ =~= before.update(i as int, merged(o0, n0)[i as int]));
                assert forall|k: int| 0 <= k < next implies (#[trigger] newer@[k]) is Unchanged by {
                    if k > i {
                        assert(!hit_at(&*newer, k));
                        lemma_coordinates(k);
                        assert(newer@[k] == newer.diff(k));
                    }
                }
                assert forall|k: int| 0 <= k < next implies self@[k] == merged(o0, n0)[k] by {
                    if k > i {
                        assert(newer@[k] is Unchanged);
                    }
                }
                done = next;
            }
        }
        proof {
            assert(self@ =~= merged(o0, n0));
            assert forall|i: int| 0 <= i < 262144 implies newer@[i] == no_diffs::<T>()[i] by {
                assert(newer@[i] is Unchanged);
            }
            assert(newer@ =~= no_diffs::<T>());
        }
    }

    /// Records a write to a slot that held `prev` until then.
    pub fn record_set(&mut self, index: u32, prev: Option<T>)
        requires
            old(self).wf(),
            index < 262144,
        ensures
            final(self).wf(),
            final(self)@ == old(self)@.update(index as int, old(self).diff(index as int).spec_after_set(prev)),
            final(self).tick == old(self).tick,
            final(self).generation_at_tick_start == old(self).generation_at_tick_start,
    {
        let d = self.take_diff(index);
        assert(self@[index as int] == self.diff(index as int));
        self.record(index, d.after_set(prev));
        proof {
            assert(self@ =~= old(self)@.update(index as int, old(self).diff(index as int).spec_after_set(prev)));
        }
    }

    /// Records the removal of a slot's value `prev`.
    pub fn record_remove(&mut self, index: u32, prev: T)
        requires
            old(self).wf(),
            index < 262144,
        ensures
            final(self).wf(),
            final(self)@ == old(self)@.update(index as int, old(self).diff(index as int).spec_after_remove(prev)),
            final(self).tick == old(self).tick,
            final(self).generation_at_tick_start == old(self).generation_at_tick_start,
    {
        let d = self.take_diff(index);
        assert(self@[index as int] == self.diff(index as int));
        self.record(index, d.after_remove(prev));
        proof {
            assert(self@ =~= old(self)@.update(index as int, old(self).diff(index as int).spec_after_remove(prev)));
        }
    }
}

impl<T> Default for RollbackStorage<T> {
    fn default() -> (j: Self)
        ensures
            j.wf(),
            j.is_empty(),
            j.tick == Tick(0),
    {
        RollbackStorage::new()
    }
}

impl<T> MaskTree for RollbackStorage<T> {
    /// The slot has a record.
    open spec fn hit(&self, s: int, p: int, c: int) -> bool {
        !(self.diff3(s, p, c) is Unchanged)
    }

    open spec fn scan_wf(&self) -> bool {
        self.wf()
    }

    fn top_mask(&self) -> (m: u64) {
        proof {
            assert forall|s: int, p: int, c: int|
                0 <= s < 64 && 0 <= p < 64 && 0 <= c < 64 && #[trigger] self.hit(s, p, c) implies bit_set(
                self.changed_mask,
                s,
            ) by {
                assert(self.child_ok(s));
            }
        }
        self.changed_mask
    }

    fn page_mask(&self, s: u32) -> (m: u64) {
        proof {
            assert(self.child_ok(s as int));
            lemma_zero_mask(0);
            if self.data[s as int].is_some() {
                let page = self.data[s as int].unwrap();
                assert forall|p: int, c: int| 0 <= p < 64 && 0 <= c < 64 && #[trigger] self.hit(s as int, p, c) implies bit_set(
                    page.changed_mask,
                    p,
                ) by {
                    assert(page.child_ok(p));
                }
            }
        }
        match &self.data[s as usize] {
            Some(page) => page.changed_mask,
            None => 0,
        }
    }

    fn chunk_mask(&self, s: u32, p: u32) -> (m: u64) {
        proof {
            assert(self.child_ok(s as int));
            lemma_zero_mask(0);
        }
        match &self.data[s as usize] {
            Some(page) => page.chunk_mask(p),
            None => 0,
        }
    }
}

} // verus!
