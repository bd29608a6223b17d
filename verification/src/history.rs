//! The mathematical model of a storage's journals, and what rollback means.
//!
//! A storage is modelled by what its slots hold and by its journals, oldest
//! first, the last one open. Undoing a journal gives the slots as they stood
//! when the journal was opened; rolling back to a tick undoes, newest first,
//! every journal tagged with a later tick.

use crate::rollback::Diff;
use vstd::prelude::*;

verus! {

/// Most sealed journals that a storage retains.
pub const JOURNAL_WINDOW: usize = 64;

/// A journal as a value: its tag, the generation counter saved into it, and
/// the record of every slot.
pub struct JournalModel<T> {
    pub tick: u32,
    pub saved_generation: u64,
    pub diffs: Seq<Diff<T>>,
}

/// The records of a journal that has none.
pub open spec fn no_diffs<T>() -> Seq<Diff<T>> {
    Seq::new(262144, |i: int| Diff::Unchanged)
}

/// The slots as they stood before the changes that `diffs` records.
pub open spec fn undo<T>(diffs: Seq<Diff<T>>, state: Seq<Option<T>>) -> Seq<Option<T>> {
    Seq::new(262144, |i: int| diffs[i].undo(state[i]))
}

/// The records of two journals taken as one: for every slot the record of
/// the older journal, and that of the newer one where the older has none.
pub open spec fn merged<T>(older: Seq<Diff<T>>, newer: Seq<Diff<T>>) -> Seq<Diff<T>> {
    Seq::new(
        262144,
        |i: int|
            if older[i] is Unchanged {
                newer[i]
            } else {
                older[i]
            },
    )
}

/// Undoing the newer journal and then the older one is undoing the two
/// taken as one: what a record restores does not depend on what the slot
/// holds.
pub proof fn lemma_undo_merged<T>(older: Seq<Diff<T>>, newer: Seq<Diff<T>>, state: Seq<Option<T>>)
    ensures
        undo(older, undo(newer, state)) == undo(merged(older, newer), state),
{
    assert(undo(older, undo(newer, state)) =~= undo(merged(older, newer), state));
}

/// Every record fits what its slot holds.
pub open spec fn fits<T>(diffs: Seq<Diff<T>>, state: Seq<Option<T>>) -> bool {
    forall|i: int| 0 <= i < 262144 ==> (#[trigger] diffs[i]).fits(state[i])
}

/// The journals once the open journal is tagged `tick`. Where it already
/// is, nothing changes. Otherwise the open journal is sealed with the
/// generation counter saved into it, an empty journal is opened for `tick`,
/// and the oldest journal is discarded if more than 64 sealed ones remain.
pub open spec fn opened<T>(journals: Seq<JournalModel<T>>, tick: u32, generation: u64) -> Seq<
    JournalModel<T>,
> {
    let last = journals.last();
    if last.tick == tick {
        journals
    } else {
        let sealed = journals.drop_last().push(
            JournalModel { tick: last.tick, saved_generation: generation, diffs: last.diffs },
        );
        let grown = sealed.push(JournalModel { tick, saved_generation: 0, diffs: no_diffs() });
        if grown.len() > 65 {
            grown.subrange(1, grown.len() as int)
        } else {
            grown
        }
    }
}

/// The journals with the open journal's record of one slot replaced.
pub open spec fn with_diff<T>(journals: Seq<JournalModel<T>>, index: int, d: Diff<T>) -> Seq<
    JournalModel<T>,
> {
    let last = journals.last();
    journals.drop_last().push(
        JournalModel {
            tick: last.tick,
            saved_generation: last.saved_generation,
            diffs: last.diffs.update(index, d),
        },
    )
}

/// The slots as they stood when journal `k` was opened: every journal from
/// `k` on undone, newest first.
pub open spec fn unwind<T>(state: Seq<Option<T>>, journals: Seq<JournalModel<T>>, k: int) -> Seq<
    Option<T>,
>
    decreases journals.len() - k,
{
    if k >= journals.len() {
        state
    } else {
        undo(journals[k].diffs, unwind(state, journals, k + 1))
    }
}

/// The slots after a rollback to `target`: every journal tagged with a
/// later tick undone, newest first.
pub open spec fn rolled_back<T>(state: Seq<Option<T>>, journals: Seq<JournalModel<T>>, target: u32) -> Seq<
    Option<T>,
>
    decreases journals.len(),
{
    if journals.len() == 0 {
        state
    } else {
        let last = journals.last();
        let rest = journals.drop_last();
        if last.tick > target {
            rolled_back(undo(last.diffs, state), rest, target)
        } else {
            rolled_back(state, rest, target)
        }
    }
}

/// The journals that a rollback to `target` retains, in their order:
/// those tagged with `target` or an earlier tick.
pub open spec fn retained<T>(journals: Seq<JournalModel<T>>, target: u32) -> Seq<JournalModel<T>>
    decreases journals.len(),
{
    if journals.len() == 0 {
        Seq::empty()
    } else {
        let rest = retained(journals.drop_last(), target);
        if journals.last().tick <= target {
            rest.push(journals.last())
        } else {
            rest
        }
    }
}

/// The journals with the generation counter saved into the open one, as
/// happens when it is sealed.
pub open spec fn sealed<T>(journals: Seq<JournalModel<T>>, generation: u64) -> Seq<JournalModel<T>> {
    let last = journals.last();
    journals.drop_last().push(
        JournalModel { tick: last.tick, saved_generation: generation, diffs: last.diffs },
    )
}

/// The journals after a rollback to `target`: the open journal is sealed,
/// the journals tagged with a later tick are consumed, at most 64 of the
/// others stay, and an empty journal is opened for `target`.
pub open spec fn after_rollback<T>(journals: Seq<JournalModel<T>>, target: u32, generation: u64) -> Seq<
    JournalModel<T>,
> {
    let kept = retained(sealed(journals, generation), target);
    let trimmed = if kept.len() > 64 {
        kept.subrange(1, kept.len() as int)
    } else {
        kept
    };
    trimmed.push(JournalModel { tick: target, saved_generation: 0, diffs: no_diffs() })
}

/// The generation counter after a rollback to `target`: the one saved in
/// the newest journal that the rollback retains.
pub open spec fn generation_after_rollback<T>(
    journals: Seq<JournalModel<T>>,
    target: u32,
    generation: u64,
) -> u64 {
    retained(sealed(journals, generation), target).last().saved_generation
}

/// A rollback retains at most as many journals as there were, and the
/// oldest one whenever its tick is not later than the target.
pub proof fn lemma_retained_len<T>(journals: Seq<JournalModel<T>>, target: u32)
    ensures
        retained(journals, target).len() <= journals.len(),
        journals.len() > 0 && journals[0].tick <= target ==> retained(journals, target).len() > 0,
    decreases journals.len(),
{
    if journals.len() > 0 {
        lemma_retained_len(journals.drop_last(), target);
    }
}

/// The ticks of the journals never decrease from one journal to the next.
pub open spec fn ticks_ascend<T>(journals: Seq<JournalModel<T>>) -> bool {
    forall|a: int, b: int| 0 <= a <= b < journals.len() ==> journals[a].tick <= journals[b].tick
}

/// A storage as a value.
pub struct Model<T> {
    pub state: Seq<Option<T>>,
    pub journals: Seq<JournalModel<T>>,
    pub generation: u64,
}

/// One write or removal: the tick it happens in, the slot, and the value
/// written, or `None` for a removal.
pub struct Op<T> {
    pub tick: u32,
    pub index: int,
    pub value: Option<T>,
}

/// The shape that every storage has: 262144 slots, at least one journal,
/// every journal with a record for each slot, and the open journal fitting
/// the slots.
pub open spec fn shaped<T>(m: Model<T>) -> bool {
    &&& m.state.len() == 262144
    &&& m.journals.len() >= 1
    &&& forall|k: int| 0 <= k < m.journals.len() ==> (#[trigger] m.journals[k]).diffs.len() == 262144
    &&& fits(m.journals.last().diffs, m.state)
}

/// The model after a write of `value` to slot `index` in tick `tick`.
pub open spec fn after_set<T>(m: Model<T>, tick: u32, index: int, value: T) -> Model<T> {
    let open = opened(m.journals, tick, m.generation);
    Model {
        state: m.state.update(index, Some(value)),
        journals: with_diff(open, index, open.last().diffs[index].spec_after_set(m.state[index])),
        generation: m.generation,
    }
}

/// The model after the removal of slot `index` in tick `tick`; the same
/// model where the slot holds nothing.
pub open spec fn after_remove<T>(m: Model<T>, tick: u32, index: int) -> Model<T> {
    if m.state[index].is_some() {
        let open = opened(m.journals, tick, m.generation);
        Model {
            state: m.state.update(index, None),
            journals: with_diff(open, index, open.last().diffs[index].spec_after_remove(m.state[index].unwrap())),
            generation: m.generation,
        }
    } else {
        m
    }
}

/// The model after one write or removal.
pub open spec fn apply<T>(m: Model<T>, op: Op<T>) -> Model<T> {
    match op.value {
        Some(v) => after_set(m, op.tick, op.index, v),
        None => after_remove(m, op.tick, op.index),
    }
}

/// The model after a run of writes and removals.
pub open spec fn run<T>(m: Model<T>, ops: Seq<Op<T>>) -> Model<T>
    decreases ops.len(),
{
    if ops.len() == 0 {
        m
    } else {
        apply(run(m, ops.drop_last()), ops.last())
    }
}

/// The model after a rollback to `target` that is within the window.
pub open spec fn after_rollback_model<T>(m: Model<T>, target: u32) -> Model<T> {
    Model {
        state: rolled_back(m.state, m.journals, target),
        journals: after_rollback(m.journals, target, m.generation),
        generation: generation_after_rollback(m.journals, target, m.generation),
    }
}

/// The slots after every slot that `doomed` marks was emptied.
pub open spec fn swept<T>(state: Seq<Option<T>>, doomed: Seq<bool>) -> Seq<Option<T>> {
    Seq::new(
        262144,
        |i: int|
            if doomed[i] {
                None
            } else {
                state[i]
            },
    )
}

/// The journals after the occupied slots below `n` that `doomed` marks were
/// removed under `tick`, lowest slot first.
pub open spec fn swept_journals<T>(
    journals: Seq<JournalModel<T>>,
    state: Seq<Option<T>>,
    doomed: Seq<bool>,
    tick: u32,
    generation: u64,
    n: int,
) -> Seq<JournalModel<T>>
    decreases n,
{
    if n <= 0 {
        journals
    } else {
        let before = swept_journals(journals, state, doomed, tick, generation, n - 1);
        if doomed[n - 1] && state[n - 1].is_some() {
            let open = opened(before, tick, generation);
            with_diff(open, n - 1, open.last().diffs[n - 1].spec_after_remove(state[n - 1].unwrap()))
        } else {
            before
        }
    }
}

/// Slots that are empty or not marked leave the journals as they are.
pub proof fn lemma_swept_skip<T>(
    journals: Seq<JournalModel<T>>,
    state: Seq<Option<T>>,
    doomed: Seq<bool>,
    tick: u32,
    generation: u64,
    a: int,
    b: int,
)
    requires
        0 <= a <= b,
        forall|k: int| a <= k < b ==> !(doomed[k] && (#[trigger] state[k]).is_some()),
    ensures
        swept_journals(journals, state, doomed, tick, generation, b) == swept_journals(
            journals,
            state,
            doomed,
            tick,
            generation,
            a,
        ),
    decreases b - a,
{
    if a < b {
        lemma_swept_skip(journals, state, doomed, tick, generation, a, b - 1);
        assert(!(doomed[b - 1] && state[b - 1].is_some()));
    }
}

/// The model after the occupied slots that `doomed` marks were removed
/// under `tick`, lowest slot first.
pub open spec fn after_sweep<T>(m: Model<T>, doomed: Seq<bool>, tick: u32) -> Model<T> {
    Model {
        state: swept(m.state, doomed),
        journals: swept_journals(m.journals, m.state, doomed, tick, m.generation, 262144),
        generation: m.generation,
    }
}

/// No slot counts as written.
pub open spec fn none_changed() -> Seq<bool> {
    Seq::new(262144, |i: int| false)
}

/// Every slot.
pub open spec fn every_slot() -> Seq<bool> {
    Seq::new(262144, |i: int| true)
}

} // verus!
