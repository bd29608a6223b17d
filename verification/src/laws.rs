//! What holds of every run of writes, removals and rollbacks.
//!
//! The laws are stated over the model of a storage: what its slots hold,
//! its journals, and its generation counter. Every operation of a storage
//! says in its contract which step of the model it takes, so what is proved
//! here of the model holds of the storage.

use crate::entity::Entity;
use crate::history::{
    after_remove, after_rollback_model, after_set, apply, fits, no_diffs, opened, retained,
    rolled_back, run, sealed, shaped, ticks_ascend, undo, unwind, with_diff, JournalModel, Model,
    Op,
};
use crate::rollback::{lemma_remove_keeps_tick_start, lemma_set_keeps_tick_start, Diff};
use crate::storage::next_generation;
use vstd::prelude::*;

verus! {

/// The operations address slots of the storage, and their ticks never
/// decrease, starting from `from`.
pub open spec fn in_order<T>(ops: Seq<Op<T>>, from: u32) -> bool {
    &&& forall|k: int| 0 <= k < ops.len() ==> 0 <= (#[trigger] ops[k]).index < 262144 && from <= ops[k].tick
    &&& forall|a: int, b: int| 0 <= a <= b < ops.len() ==> ops[a].tick <= ops[b].tick
}

/// A slot that a tick created and then removed has no record: the journal
/// shows no difference for it, whatever was written in between.
pub proof fn lemma_set_then_remove_leaves_no_record<T>(d: Diff<T>, current: Option<T>, value: T)
    requires
        d.fits(current),
        d.undo(current).is_none(),
    ensures
        d.spec_after_set(current).spec_after_remove(value) is Unchanged,
{
}

/// A slot that a tick removed and then wrote again is recorded as changed,
/// with the value from before the tick: undoing the record restores it.
pub proof fn lemma_remove_then_set_restores<T>(d: Diff<T>, before: T, value: T)
    requires
        d.fits(Some(before)),
    ensures
        d.spec_after_remove(before).spec_after_set(None).undo(Some(value)) == d.undo(Some(before)),
        d is Unchanged ==> d.spec_after_remove(before).spec_after_set(None) == Diff::Changed(before),
{
}

/// Opening a tick keeps the shape of a model.
pub proof fn lemma_opened_shape<T>(journals: Seq<JournalModel<T>>, tick: u32, generation: u64)
    requires
        journals.len() >= 1,
        forall|k: int| 0 <= k < journals.len() ==> (#[trigger] journals[k]).diffs.len() == 262144,
    ensures
        opened(journals, tick, generation).len() >= 1,
        opened(journals, tick, generation).last().tick == tick,
        forall|k: int|
            0 <= k < opened(journals, tick, generation).len() ==> (#[trigger] opened(journals, tick, generation)[k]).diffs.len()
                == 262144,
        journals.last().tick != tick ==> opened(journals, tick, generation).last().diffs == no_diffs::<T>(),
        journals.last().tick == tick ==> opened(journals, tick, generation) == journals,
{
}

/// Sealing the open journal, and dropping a journal that is not tagged
/// later than the target, change nothing of what a rollback restores.
pub proof fn lemma_rolled_back_opened<T>(
    state: Seq<Option<T>>,
    journals: Seq<JournalModel<T>>,
    tick: u32,
    generation: u64,
    target: u32,
)
    requires
        state.len() == 262144,
        journals.len() >= 1,
        journals[0].tick <= target,
        target < tick,
        journals.last().tick != tick,
    ensures
        rolled_back(state, opened(journals, tick, generation), target) == rolled_back(state, journals, target),
{
    let last = journals.last();
    let sj = sealed(journals, generation);
    let fresh = JournalModel { tick, saved_generation: 0, diffs: no_diffs::<T>() };
    let grown = sj.push(fresh);
    assert(grown.drop_last() =~= sj);
    assert(undo(no_diffs::<T>(), state) =~= state);
    assert(rolled_back(state, grown, target) == rolled_back(state, sj, target));
    assert(sj.drop_last() =~= journals.drop_last());
    assert(rolled_back(state, sj, target) == rolled_back(state, journals, target));
    if grown.len() > 65 {
        let cut = grown.subrange(1, grown.len() as int);
        lemma_rolled_back_front(state, grown, target);
    }
}

/// A rollback passes over a first journal that is not tagged later than
/// the target: without that journal it restores the same.
pub proof fn lemma_rolled_back_front<T>(state: Seq<Option<T>>, journals: Seq<JournalModel<T>>, target: u32)
    requires
        journals.len() >= 1,
        journals[0].tick <= target,
    ensures
        rolled_back(state, journals.subrange(1, journals.len() as int), target) == rolled_back(
            state,
            journals,
            target,
        ),
    decreases journals.len(),
{
    let cut = journals.subrange(1, journals.len() as int);
    if journals.len() == 1 {
        assert(journals.drop_last() =~= Seq::<JournalModel<T>>::empty());
        assert(cut =~= Seq::<JournalModel<T>>::empty());
        assert(journals.last() == journals[0]);
        assert(rolled_back(state, journals, target) == rolled_back(state, journals.drop_last(), target));
        assert(rolled_back(state, journals.drop_last(), target) == state);
        assert(rolled_back(state, cut, target) == state);
    } else {
        let last = journals.last();
        let rest = journals.drop_last();
        assert(cut.last() == last);
        assert(cut.drop_last() =~= rest.subrange(1, rest.len() as int));
        if last.tick > target {
            lemma_rolled_back_front(undo(last.diffs, state), rest, target);
        } else {
            lemma_rolled_back_front(state, rest, target);
        }
    }
}

/// One write or removal in a tick changes nothing of what a rollback to an
/// earlier tick restores, as long as that tick is within the window.
pub proof fn lemma_step_keeps_rollback<T>(m: Model<T>, op: Op<T>, target: u32)
    requires
        shaped(m),
        0 <= op.index < 262144,
        target < op.tick,
        m.journals[0].tick <= target,
    ensures
        shaped(apply(m, op)),
        apply(m, op).journals.last().tick == op.tick || apply(m, op) == m,
        rolled_back(apply(m, op).state, apply(m, op).journals, target) == rolled_back(m.state, m.journals, target),
{
    let after = apply(m, op);
    if op.value.is_none() && m.state[op.index].is_none() {
        return ;
    }
    let open = opened(m.journals, op.tick, m.generation);
    lemma_opened_shape(m.journals, op.tick, m.generation);
    let d = open.last().diffs[op.index];
    let nd = if op.value.is_some() {
        d.spec_after_set(m.state[op.index])
    } else {
        d.spec_after_remove(m.state[op.index].unwrap())
    };
    assert(after.journals == with_diff(open, op.index, nd));
    assert(after.journals.drop_last() =~= open.drop_last());
    assert(d.fits(m.state[op.index])) by {
        if m.journals.last().tick == op.tick {
            assert(open.last().diffs[op.index] == m.journals.last().diffs[op.index]);
        }
    }
    if op.value.is_some() {
        lemma_set_keeps_tick_start(d, m.state[op.index], op.value.unwrap());
    } else {
        lemma_remove_keeps_tick_start(d, m.state[op.index].unwrap());
    }
    assert(undo(after.journals.last().diffs, after.state) =~= undo(open.last().diffs, m.state));
    assert(fits(after.journals.last().diffs, after.state)) by {
        assert forall|i: int| 0 <= i < 262144 implies (#[trigger] after.journals.last().diffs[i]).fits(
            after.state[i],
        ) by {
            if i != op.index {
                if m.journals.last().tick == op.tick {
                    assert(m.journals.last().diffs[i].fits(m.state[i]));
                }
            }
        }
    }
    assert(rolled_back(after.state, after.journals, target) == rolled_back(m.state, open, target));
    if m.journals.last().tick != op.tick {
        lemma_rolled_back_opened(m.state, m.journals, op.tick, m.generation, target);
    }
}

/// The journals of a shaped model, with ascending ticks, stay shaped and
/// ascending under a write or removal whose tick is not before the open
/// journal's, and the oldest journal's tick does not go back.
pub proof fn lemma_step_keeps_order<T>(m: Model<T>, op: Op<T>)
    requires
        shaped(m),
        0 <= op.index < 262144,
        ticks_ascend(m.journals),
        m.journals.last().tick <= op.tick,
    ensures
        ticks_ascend(apply(m, op).journals),
        m.journals[0].tick <= apply(m, op).journals[0].tick,
        m.journals.last().tick <= apply(m, op).journals.last().tick <= op.tick,
        apply(m, op).journals.len() >= 1,
{
    if op.value.is_none() && m.state[op.index].is_none() {
        return ;
    }
    let open = opened(m.journals, op.tick, m.generation);
    lemma_opened_shape(m.journals, op.tick, m.generation);
    let after = apply(m, op);
    assert(after.journals.len() == open.len());
    assert forall|k: int| 0 <= k < open.len() implies (#[trigger] after.journals[k]).tick == open[k].tick by {}
    if m.journals.last().tick != op.tick {
        let sj = sealed(m.journals, m.generation);
        let fresh = JournalModel { tick: op.tick, saved_generation: 0, diffs: no_diffs::<T>() };
        let grown = sj.push(fresh);
        assert forall|a: int, b: int| 0 <= a <= b < grown.len() implies grown[a].tick <= grown[b].tick by {
            if b < sj.len() {
                assert(sj[a].tick == m.journals[a].tick);
                assert(sj[b].tick == m.journals[b].tick);
            } else {
                if a < sj.len() {
                    assert(sj[a].tick == m.journals[a].tick);
                    assert(m.journals[a].tick <= m.journals[m.journals.len() - 1].tick);
                }
            }
        }
        assert(grown[0].tick == m.journals[0].tick);
        if grown.len() > 65 {
            assert(grown[1].tick >= grown[0].tick);
        }
    }
}

/// Round trip. Take a storage, a run of writes and removals up to the tick
/// `target`, and a further run in later ticks, all with ticks that never
/// decrease. If a rollback to `target` is then still within the window, it
/// restores exactly what the slots held at the end of the first run.
pub proof fn lemma_round_trip<T>(m: Model<T>, first: Seq<Op<T>>, later: Seq<Op<T>>, target: u32)
    requires
        shaped(m),
        ticks_ascend(m.journals),
        in_order(first + later, m.journals.last().tick),
        m.journals.last().tick <= target,
        forall|k: int| 0 <= k < first.len() ==> (#[trigger] first[k]).tick <= target,
        forall|k: int| 0 <= k < later.len() ==> target < (#[trigger] later[k]).tick,
        run(m, first + later).journals[0].tick <= target,
    ensures
        rolled_back(run(m, first + later).state, run(m, first + later).journals, target) == run(m, first).state,
    decreases later.len(),
{
    let all = first + later;
    if later.len() == 0 {
        assert(all =~= first);
        lemma_run_keeps_order(m, first, target);
        lemma_rolled_back_nothing(run(m, first).state, run(m, first).journals, target);
    } else {
        let op = later.last();
        let before = first + later.drop_last();
        assert(all.drop_last() =~= before);
        assert(all.last() == op);
        assert(op == all[all.len() - 1]);
        let mid = run(m, before);
        assert forall|k: int| 0 <= k < before.len() implies 0 <= (#[trigger] before[k]).index < 262144
            && m.journals.last().tick <= before[k].tick by {
            assert(before[k] == all[k]);
        }
        assert forall|a: int, b: int| 0 <= a <= b < before.len() implies before[a].tick <= before[b].tick by {
            assert(before[a] == all[a]);
            assert(before[b] == all[b]);
        }
        lemma_run_shape(m, before);
        assert(mid.journals.last().tick <= op.tick) by {
            lemma_run_last_tick(m, before);
            if before.len() > 0 {
                assert(before.last() == all[all.len() - 2]);
            }
        }
        lemma_step_keeps_order(mid, op);
        assert(mid.journals[0].tick <= target);
        lemma_step_keeps_rollback(mid, op, target);
        assert forall|k: int| 0 <= k < later.drop_last().len() implies target < (#[trigger] later.drop_last()[k]).tick by {
            assert(later.drop_last()[k] == later[k]);
        }
        lemma_round_trip(m, first, later.drop_last(), target);
    }
}

/// Where no journal is tagged later than the target, a rollback restores
/// the slots as they are.
pub proof fn lemma_rolled_back_nothing<T>(state: Seq<Option<T>>, journals: Seq<JournalModel<T>>, target: u32)
    requires
        forall|k: int| 0 <= k < journals.len() ==> (#[trigger] journals[k]).tick <= target,
    ensures
        rolled_back(state, journals, target) == state,
    decreases journals.len(),
{
    if journals.len() > 0 {
        assert(journals.last() == journals[journals.len() - 1]);
        assert forall|k: int| 0 <= k < journals.drop_last().len() implies (#[trigger] journals.drop_last()[k]).tick
            <= target by {
            assert(journals.drop_last()[k] == journals[k]);
        }
        lemma_rolled_back_nothing(state, journals.drop_last(), target);
    }
}

/// A run of ordered writes and removals keeps the shape of the model and
/// the order of the ticks.
pub proof fn lemma_run_shape<T>(m: Model<T>, ops: Seq<Op<T>>)
    requires
        shaped(m),
        ticks_ascend(m.journals),
        in_order(ops, m.journals.last().tick),
    ensures
        shaped(run(m, ops)),
        ticks_ascend(run(m, ops).journals),
        m.journals[0].tick <= run(m, ops).journals[0].tick,
        m.journals.last().tick <= run(m, ops).journals.last().tick,
        ops.len() > 0 ==> run(m, ops).journals.last().tick <= ops.last().tick,
    decreases ops.len(),
{
    if ops.len() > 0 {
        let before = ops.drop_last();
        let op = ops.last();
        assert(op == ops[ops.len() - 1]);
        assert forall|k: int| 0 <= k < before.len() implies 0 <= (#[trigger] before[k]).index < 262144
            && m.journals.last().tick <= before[k].tick by {
            assert(before[k] == ops[k]);
        }
        assert forall|a: int, b: int| 0 <= a <= b < before.len() implies before[a].tick <= before[b].tick by {
            assert(before[a] == ops[a]);
            assert(before[b] == ops[b]);
        }
        lemma_run_shape(m, before);
        let mid = run(m, before);
        if before.len() > 0 {
            assert(before.last() == ops[ops.len() - 2]);
        }
        lemma_step_keeps_order(mid, op);
        lemma_step_shape(mid, op);
    }
}

/// The open journal of a run is tagged no later than the run's last tick.
pub proof fn lemma_run_last_tick<T>(m: Model<T>, ops: Seq<Op<T>>)
    requires
        shaped(m),
        ticks_ascend(m.journals),
        in_order(ops, m.journals.last().tick),
    ensures
        ops.len() > 0 ==> run(m, ops).journals.last().tick <= ops.last().tick,
        ops.len() == 0 ==> run(m, ops).journals.last().tick == m.journals.last().tick,
{
    lemma_run_shape(m, ops);
}

/// One write or removal keeps the shape of the model.
pub proof fn lemma_step_shape<T>(m: Model<T>, op: Op<T>)
    requires
        shaped(m),
        0 <= op.index < 262144,
    ensures
        shaped(apply(m, op)),
{
    let after = apply(m, op);
    if op.value.is_none() && m.state[op.index].is_none() {
        return ;
    }
    let open = opened(m.journals, op.tick, m.generation);
    lemma_opened_shape(m.journals, op.tick, m.generation);
    let d = open.last().diffs[op.index];
    assert(d.fits(m.state[op.index])) by {
        if m.journals.last().tick == op.tick {
            assert(open.last().diffs[op.index] == m.journals.last().diffs[op.index]);
        }
    }
    if op.value.is_some() {
        lemma_set_keeps_tick_start(d, m.state[op.index], op.value.unwrap());
    } else {
        lemma_remove_keeps_tick_start(d, m.state[op.index].unwrap());
    }
    assert forall|k: int| 0 <= k < after.journals.len() implies (#[trigger] after.journals[k]).diffs.len() == 262144 by {
        if k < after.journals.len() - 1 {
            assert(after.journals[k] == open[k]);
        }
    }
    assert forall|i: int| 0 <= i < 262144 implies (#[trigger] after.journals.last().diffs[i]).fits(after.state[i]) by {
        if i != op.index {
            if m.journals.last().tick == op.tick {
                assert(m.journals.last().diffs[i].fits(m.state[i]));
            }
        }
    }
}

/// After a run whose ticks all lie at or before the target, no journal is
/// tagged later than the target.
pub proof fn lemma_run_keeps_order<T>(m: Model<T>, ops: Seq<Op<T>>, target: u32)
    requires
        shaped(m),
        ticks_ascend(m.journals),
        in_order(ops, m.journals.last().tick),
        m.journals.last().tick <= target,
        forall|k: int| 0 <= k < ops.len() ==> (#[trigger] ops[k]).tick <= target,
    ensures
        forall|k: int| 0 <= k < run(m, ops).journals.len() ==> (#[trigger] run(m, ops).journals[k]).tick <= target,
{
    lemma_run_shape(m, ops);
    let js = run(m, ops).journals;
    if ops.len() > 0 {
        assert(ops.last() == ops[ops.len() - 1]);
    }
    assert forall|k: int| 0 <= k < js.len() implies (#[trigger] js[k]).tick <= target by {
        assert(js[k].tick <= js[js.len() - 1].tick);
    }
}

/// While the generation counter stays below the width of the generation
/// field, issuing an entity raises the counter by one, and the entity gets
/// the new counter as its generation.
pub proof fn lemma_generation_advances(g: u64)
    requires
        g < 0x7ff_ffff_ffff,
    ensures
        next_generation(g) == g + 1,
        next_generation(g) % 0x800_0000_0000 == g + 1,
{
}

/// Two entities issued one after the other, with no rollback in between,
/// have distinct generations, the later one the greater, while the
/// generation counter stays below the width of the generation field.
pub proof fn lemma_later_spawn_differs(earlier: u64, later: u64)
    requires
        next_generation(earlier) <= later,
        later < 0x7ff_ffff_ffff,
    ensures
        next_generation(earlier) % 0x800_0000_0000 < next_generation(later) % 0x800_0000_0000,
{
}

/// No entity of the state has a generation above `g`.
pub open spec fn bounded(state: Seq<Option<Entity>>, g: u64) -> bool {
    forall|i: int| 0 <= i < state.len() && (#[trigger] state[i]).is_some() ==> state[i].unwrap().generation() <= g
}

/// When journal `k` was sealed, no entity had a generation above the
/// counter that was saved into the journal.
pub open spec fn sealed_ahead(m: Model<Entity>, k: int) -> bool {
    bounded(unwind(m.state, m.journals, k + 1), m.journals[k].saved_generation)
}

/// The generation counter is ahead of every entity: of those that live
/// now, and, at the sealing of every sealed journal, of those that lived
/// then. An entity storage that is written by spawning and emptied by
/// removing is in this state from the start.
pub open spec fn generations_ahead(m: Model<Entity>) -> bool {
    &&& bounded(m.state, m.generation)
    &&& forall|k: int| 0 <= k < m.journals.len() - 1 ==> #[trigger] sealed_ahead(m, k)
}

/// How many journals a rollback to `target` retains, where the ticks
/// ascend: the journals before the first that is tagged later.
pub open spec fn kept_count<T>(journals: Seq<JournalModel<T>>, target: u32) -> int
    decreases journals.len(),
{
    if journals.len() == 0 {
        0
    } else if journals.last().tick > target {
        kept_count(journals.drop_last(), target)
    } else {
        journals.len() as int
    }
}

/// Undoing the journals from `c` on is undoing the last one and then the
/// others from `c` on.
pub proof fn lemma_unwind_peel<T>(state: Seq<Option<T>>, journals: Seq<JournalModel<T>>, c: int)
    requires
        0 <= c < journals.len(),
    ensures
        unwind(state, journals, c) == unwind(undo(journals.last().diffs, state), journals.drop_last(), c),
    decreases journals.len() - c,
{
    let rest = journals.drop_last();
    let x = undo(journals.last().diffs, state);
    if c == journals.len() - 1 {
        assert(unwind(state, journals, c + 1) == state);
        assert(unwind(x, rest, c) == x);
    } else {
        lemma_unwind_peel(state, journals, c + 1);
        assert(rest[c] == journals[c]);
    }
}

/// What is undone from `a` on depends on the records of the journals from
/// `a` on alone.
pub proof fn lemma_unwind_same<T>(
    state: Seq<Option<T>>,
    first: Seq<JournalModel<T>>,
    a: int,
    second: Seq<JournalModel<T>>,
    b: int,
)
    requires
        0 <= a <= first.len(),
        0 <= b <= second.len(),
        first.len() - a == second.len() - b,
        forall|i: int| 0 <= i < first.len() - a ==> (#[trigger] first[a + i]).diffs == second[b + i].diffs,
    ensures
        unwind(state, first, a) == unwind(state, second, b),
    decreases first.len() - a,
{
    if a < first.len() {
        assert(first[a + 0].diffs == second[b + 0].diffs);
        assert forall|i: int| 0 <= i < first.len() - (a + 1) implies (#[trigger] first[a + 1 + i]).diffs == second[b
            + 1 + i].diffs by {
            assert(first[a + (i + 1)].diffs == second[b + (i + 1)].diffs);
        }
        lemma_unwind_same(state, first, a + 1, second, b + 1);
    }
}

/// Where the ticks ascend, a rollback retains the journals before the
/// first that is tagged later than the target and undoes the others.
pub proof fn lemma_rollback_is_unwind<T>(state: Seq<Option<T>>, journals: Seq<JournalModel<T>>, target: u32)
    requires
        ticks_ascend(journals),
    ensures
        0 <= kept_count(journals, target) <= journals.len(),
        journals.len() > 0 && journals[0].tick <= target ==> kept_count(journals, target) >= 1,
        rolled_back(state, journals, target) == unwind(state, journals, kept_count(journals, target)),
        retained(journals, target) == journals.take(kept_count(journals, target)),
    decreases journals.len(),
{
    if journals.len() == 0 {
        assert(retained(journals, target) =~= journals.take(0));
    } else {
        let last = journals.last();
        let rest = journals.drop_last();
        assert forall|a: int, b: int| 0 <= a <= b < rest.len() implies rest[a].tick <= rest[b].tick by {
            assert(rest[a] == journals[a]);
            assert(rest[b] == journals[b]);
        }
        if last.tick > target {
            lemma_rollback_is_unwind(undo(last.diffs, state), rest, target);
            lemma_rollback_is_unwind(state, rest, target);
            let c = kept_count(rest, target);
            lemma_unwind_peel(state, journals, c);
            assert(retained(journals, target) == retained(rest, target));
            assert(rest.take(c) =~= journals.take(c));
            if journals[0].tick <= target {
                assert(rest.len() > 0);
                assert(rest[0] == journals[0]);
            }
        } else {
            assert forall|k: int| 0 <= k < journals.len() implies (#[trigger] journals[k]).tick <= target by {
                assert(journals[k].tick <= journals[journals.len() - 1].tick);
            }
            lemma_rolled_back_nothing(state, journals, target);
            lemma_retained_all(journals, target);
            assert(journals.take(journals.len() as int) =~= journals);
        }
    }
}

/// Where no journal is tagged later than the target, a rollback retains
/// them all.
pub proof fn lemma_retained_all<T>(journals: Seq<JournalModel<T>>, target: u32)
    requires
        forall|k: int| 0 <= k < journals.len() ==> (#[trigger] journals[k]).tick <= target,
    ensures
        retained(journals, target) == journals,
    decreases journals.len(),
{
    if journals.len() > 0 {
        let rest = journals.drop_last();
        assert(journals.last() == journals[journals.len() - 1]);
        assert forall|k: int| 0 <= k < rest.len() implies (#[trigger] rest[k]).tick <= target by {
            assert(rest[k] == journals[k]);
        }
        lemma_retained_all(rest, target);
        assert(rest.push(journals.last()) =~= journals);
    } else {
        assert(retained(journals, target) =~= journals);
    }
}

/// A rollback keeps the generation counter ahead. Where the counter was
/// ahead of every entity, now and at every sealing, and the ticks of the
/// journals ascend, the counter that a rollback restores is not below the
/// generation of any entity that lives after the rollback, and it is
/// ahead at every sealing of the journals that the rollback retains. The
/// model keeps its shape, its ticks still ascend, and its open journal is
/// tagged with the target.
pub proof fn lemma_rollback_keeps_generations_ahead(m: Model<Entity>, target: u32)
    requires
        shaped(m),
        ticks_ascend(m.journals),
        generations_ahead(m),
        m.journals[0].tick <= target,
    ensures
        bounded(after_rollback_model(m, target).state, after_rollback_model(m, target).generation),
        generations_ahead(after_rollback_model(m, target)),
        shaped(after_rollback_model(m, target)),
        ticks_ascend(after_rollback_model(m, target).journals),
        after_rollback_model(m, target).journals.last().tick == target,
{
    let js = m.journals;
    let sj = sealed(js, m.generation);
    let n = js.len() as int;
    assert forall|a: int, b: int| 0 <= a <= b < sj.len() implies sj[a].tick <= sj[b].tick by {
        assert(sj[a].tick == js[a].tick);
        assert(sj[b].tick == js[b].tick);
    }
    lemma_rollback_is_unwind(m.state, js, target);
    lemma_rollback_is_unwind(m.state, sj, target);
    lemma_kept_count_same(js, sj, target);
    let c = kept_count(js, target);
    assert(retained(sj, target).last() == sj[c - 1]);
    if c == n {
        assert(unwind(m.state, js, n) == m.state);
    } else {
        assert(sealed_ahead(m, c - 1));
        assert(sj[c - 1] == js[c - 1]);
    }
    let after = after_rollback_model(m, target);
    let x = after.state;
    let kept = retained(sj, target);
    lemma_retained_ticks(sj, target);
    let shift: int = if kept.len() > 64 {
        1
    } else {
        0
    };
    let trimmed = kept.subrange(shift, kept.len() as int);
    let fresh = JournalModel { tick: target, saved_generation: 0, diffs: no_diffs::<Entity>() };
    let aj = after.journals;
    assert(aj =~= trimmed.push(fresh));
    assert(aj.drop_last() =~= trimmed);
    assert(x.len() == 262144);
    assert(undo(fresh.diffs, x) =~= x);
    assert forall|k: int| 0 <= k < trimmed.len() implies (#[trigger] trimmed[k]).diffs == js[k + shift].diffs
        && trimmed[k].tick == js[k + shift].tick && trimmed[k].tick <= target && trimmed[k] == sj[k + shift] by {
        assert(trimmed[k] == kept[k + shift]);
        assert(kept[k + shift] == sj[k + shift]);
    }
    assert forall|k: int| 0 <= k < aj.len() implies (#[trigger] aj[k]).diffs.len() == 262144 by {
        if k < trimmed.len() {
            assert(aj[k] == trimmed[k]);
            assert(js[k + shift].diffs.len() == 262144);
        }
    }
    assert forall|a: int, b: int| 0 <= a <= b < aj.len() implies aj[a].tick <= aj[b].tick by {
        if a < trimmed.len() {
            assert(aj[a] == trimmed[a]);
        }
        if b < trimmed.len() {
            assert(aj[b] == trimmed[b]);
            assert(js[a + shift].tick <= js[b + shift].tick);
        }
    }
    assert forall|k: int| 0 <= k < aj.len() - 1 implies #[trigger] sealed_ahead(after, k) by {
        lemma_unwind_peel(x, aj, k + 1);
        assert(aj[k] == trimmed[k]);
        if k + 1 == trimmed.len() {
            assert(unwind(x, trimmed, k + 1) == x);
            assert(k + shift == c - 1);
        } else {
            lemma_unwind_split(m.state, js, k + shift + 1, c);
            let front = js.take(c);
            assert forall|i: int| 0 <= i < trimmed.len() - (k + 1) implies (#[trigger] trimmed[k + 1 + i]).diffs
                == front[k + shift + 1 + i].diffs by {
                assert(front[k + shift + 1 + i] == js[k + 1 + i + shift]);
            }
            lemma_unwind_same(x, trimmed, k + 1, front, k + shift + 1);
            assert(sealed_ahead(m, k + shift));
            assert(sj[k + shift] == js[k + shift]);
        }
    }
}

/// Every journal that a rollback retains is tagged with the target or
/// with an earlier tick.
pub proof fn lemma_retained_ticks<T>(journals: Seq<JournalModel<T>>, target: u32)
    ensures
        forall|k: int| 0 <= k < retained(journals, target).len() ==> (#[trigger] retained(journals, target)[k]).tick
            <= target,
    decreases journals.len(),
{
    if journals.len() > 0 {
        let rest = retained(journals.drop_last(), target);
        lemma_retained_ticks(journals.drop_last(), target);
        let all = retained(journals, target);
        assert forall|k: int| 0 <= k < all.len() implies (#[trigger] all[k]).tick <= target by {
            if k < rest.len() {
                assert(all[k] == rest[k]);
            }
        }
    }
}

/// Undoing the journals from `a` on is undoing those from `c` on and
/// then, among the journals before `c`, those from `a` on.
pub proof fn lemma_unwind_split<T>(state: Seq<Option<T>>, journals: Seq<JournalModel<T>>, a: int, c: int)
    requires
        0 <= a <= c <= journals.len(),
    ensures
        unwind(state, journals, a) == unwind(unwind(state, journals, c), journals.take(c), a),
    decreases c - a,
{
    let x = unwind(state, journals, c);
    let front = journals.take(c);
    if a == c {
        assert(unwind(x, front, c) == x);
    } else {
        lemma_unwind_split(state, journals, a + 1, c);
        assert(front[a] == journals[a]);
    }
}

/// Journals with the same ticks retain the same number.
pub proof fn lemma_kept_count_same<T>(first: Seq<JournalModel<T>>, second: Seq<JournalModel<T>>, target: u32)
    requires
        first.len() == second.len(),
        forall|k: int| 0 <= k < first.len() ==> (#[trigger] first[k]).tick == second[k].tick,
    ensures
        kept_count(first, target) == kept_count(second, target),
    decreases first.len(),
{
    if first.len() > 0 {
        assert(first.last() == first[first.len() - 1]);
        assert(second.last() == second[second.len() - 1]);
        assert forall|k: int| 0 <= k < first.drop_last().len() implies (#[trigger] first.drop_last()[k]).tick
            == second.drop_last()[k].tick by {
            assert(first.drop_last()[k] == first[k]);
            assert(second.drop_last()[k] == second[k]);
        }
        lemma_kept_count_same(first.drop_last(), second.drop_last(), target);
    }
}

/// Raising the counter keeps it ahead.
pub proof fn lemma_counter_raised(m: Model<Entity>, g: u64)
    requires
        generations_ahead(m),
        m.generation <= g,
    ensures
        generations_ahead(Model { state: m.state, journals: m.journals, generation: g }),
{
    let raised = Model { state: m.state, journals: m.journals, generation: g };
    assert forall|k: int| 0 <= k < raised.journals.len() - 1 implies #[trigger] sealed_ahead(raised, k) by {
        assert(sealed_ahead(m, k));
    }
}

/// A write or a removal keeps the generation counter ahead, as long as an
/// entity that is written has a generation that the counter has reached
/// afterwards. Issuing an entity seals the open journal where the tick is
/// new, raises the counter, and writes the entity with the raised counter
/// as its generation, so it keeps the counter ahead too.
pub proof fn lemma_step_keeps_generations_ahead(m: Model<Entity>, op: Op<Entity>, counter: u64)
    requires
        shaped(m),
        generations_ahead(m),
        0 <= op.index < 262144,
        m.generation <= counter,
        op.value.is_some() ==> op.value.unwrap().generation() <= counter,
    ensures
        generations_ahead(
            Model { state: apply(m, op).state, journals: apply(m, op).journals, generation: counter },
        ),
{
    let stepped = apply(m, op);
    let after = Model { state: stepped.state, journals: stepped.journals, generation: counter };
    if op.value.is_none() && m.state[op.index].is_none() {
        lemma_counter_raised(m, counter);
        return ;
    }
    lemma_step_shape(m, op);
    let open = opened(m.journals, op.tick, m.generation);
    lemma_opened_shape(m.journals, op.tick, m.generation);
    let d = open.last().diffs[op.index];
    assert(d.fits(m.state[op.index])) by {
        if m.journals.last().tick == op.tick {
            assert(open.last().diffs[op.index] == m.journals.last().diffs[op.index]);
        }
    }
    if op.value.is_some() {
        lemma_set_keeps_tick_start(d, m.state[op.index], op.value.unwrap());
    } else {
        lemma_remove_keeps_tick_start(d, m.state[op.index].unwrap());
    }
    let js = m.journals;
    let n1 = after.journals.len() as int;
    assert(after.journals.drop_last() =~= open.drop_last());
    assert(undo(after.journals.last().diffs, after.state) =~= undo(open.last().diffs, m.state));
    assert forall|k: int| 0 <= k < n1 - 1 implies #[trigger] sealed_ahead(after, k) by {
        lemma_unwind_peel(after.state, after.journals, k + 1);
        let base = undo(open.last().diffs, m.state);
        let prefix = open.drop_last();
        assert(after.journals[k] == open[k]);
        if js.last().tick == op.tick {
            assert(open == js);
            lemma_unwind_peel(m.state, js, k + 1);
            assert(sealed_ahead(m, k));
        } else {
            let sj = sealed(js, m.generation);
            let fresh = JournalModel { tick: op.tick, saved_generation: 0, diffs: no_diffs::<Entity>() };
            let grown = sj.push(fresh);
            assert(base =~= m.state);
            let shift: int = if grown.len() > 65 {
                1
            } else {
                0
            };
            assert(prefix =~= sj.subrange(shift, sj.len() as int));
            if k == n1 - 2 {
                assert(unwind(m.state, prefix, k + 1) == m.state);
                assert(open[k] == sj[sj.len() - 1]);
            } else {
                assert forall|i: int| 0 <= i < prefix.len() - (k + 1) implies (#[trigger] prefix[k + 1 + i]).diffs
                    == js[k + 1 + shift + i].diffs by {
                    assert(prefix[k + 1 + i] == sj[k + 1 + i + shift]);
                }
                lemma_unwind_same(m.state, prefix, k + 1, js, k + 1 + shift);
                assert(sealed_ahead(m, k + shift));
                assert(open[k] == sj[k + shift]);
                assert(sj[k + shift] == js[k + shift]);
            }
        }
    }
}

/// Issuing an entity keeps the generation counter ahead, while the
/// counter stays below the width of the generation field: the model after
/// a spawn is the model after the write of the entity, with the counter
/// raised to the entity's generation.
pub proof fn lemma_spawn_keeps_generations_ahead(m: Model<Entity>, tick: u32, index: int, e: Entity)
    requires
        shaped(m),
        generations_ahead(m),
        0 <= index < 262144,
        m.generation < 0x7ff_ffff_ffff,
        e.generation() == next_generation(m.generation) % 0x800_0000_0000,
    ensures
        e.generation() == m.generation + 1,
        generations_ahead(
            Model {
                state: after_set(m, tick, index, e).state,
                journals: after_set(m, tick, index, e).journals,
                generation: next_generation(m.generation),
            },
        ),
{
    lemma_generation_advances(m.generation);
    lemma_step_keeps_generations_ahead(m, Op { tick, index, value: Some(e) }, next_generation(m.generation));
}

/// A storage without entities and with one empty journal has its
/// generation counter ahead.
pub proof fn lemma_empty_is_ahead(m: Model<Entity>)
    requires
        m.journals.len() == 1,
        forall|i: int| 0 <= i < m.state.len() ==> (#[trigger] m.state[i]).is_none(),
    ensures
        generations_ahead(m),
{
}

/// One step in the life of an entity storage.
pub enum EntityOp {
    /// An entity is issued in a tick and written to its slot.
    Spawn { tick: u32, entity: Entity },
    /// An entity is asked for while every slot is occupied: only the
    /// generation counter advances.
    Refused,
    /// A slot is emptied in a tick.
    Remove { tick: u32, index: int },
    /// The storage is rolled back to a tick.
    Rollback { target: u32 },
}

/// The step can be taken: a tick is not before that of the open journal, a
/// slot is one of the storage, an entity that is issued has the advanced
/// counter as its generation while the counter is below the width of the
/// generation field, and a rollback is within the window.
pub open spec fn entity_step_ok(m: Model<Entity>, op: EntityOp) -> bool {
    match op {
        EntityOp::Spawn { tick, entity } => {
            &&& m.journals.last().tick <= tick
            &&& entity.index() < 262144
            &&& m.generation < 0x7ff_ffff_ffff
            &&& entity.generation() == next_generation(m.generation) % 0x800_0000_0000
        },
        EntityOp::Refused => m.generation < 0x7ff_ffff_ffff,
        EntityOp::Remove { tick, index } => m.journals.last().tick <= tick && 0 <= index < 262144,
        EntityOp::Rollback { target } => m.journals[0].tick <= target,
    }
}

/// The model after the step, as the contracts of spawning, removing and
/// rolling back give it.
pub open spec fn entity_step(m: Model<Entity>, op: EntityOp) -> Model<Entity> {
    match op {
        EntityOp::Spawn { tick, entity } => {
            let written = after_set(m, tick, entity.index() as int, entity);
            Model { state: written.state, journals: written.journals, generation: next_generation(m.generation) }
        },
        EntityOp::Refused => Model {
            state: m.state,
            journals: m.journals,
            generation: next_generation(m.generation),
        },
        EntityOp::Remove { tick, index } => after_remove(m, tick, index),
        EntityOp::Rollback { target } => after_rollback_model(m, target),
    }
}

/// The model after a history of steps.
pub open spec fn entity_history(m: Model<Entity>, ops: Seq<EntityOp>) -> Model<Entity>
    decreases ops.len(),
{
    if ops.len() == 0 {
        m
    } else {
        entity_step(entity_history(m, ops.drop_last()), ops.last())
    }
}

/// Every step of the history can be taken when its turn comes.
pub open spec fn entity_history_ok(m: Model<Entity>, ops: Seq<EntityOp>) -> bool
    decreases ops.len(),
{
    ops.len() == 0 || (entity_history_ok(m, ops.drop_last()) && entity_step_ok(
        entity_history(m, ops.drop_last()),
        ops.last(),
    ))
}

/// The state in which an entity storage stays: shaped, its ticks
/// ascending, and its generation counter ahead of every entity.
pub open spec fn entity_sound(m: Model<Entity>) -> bool {
    shaped(m) && ticks_ascend(m.journals) && generations_ahead(m)
}

/// Issuing an entity, a refused request, a removal and a rollback each
/// keep the entity storage sound.
pub proof fn lemma_entity_step_sound(m: Model<Entity>, op: EntityOp)
    requires
        entity_sound(m),
        entity_step_ok(m, op),
    ensures
        entity_sound(entity_step(m, op)),
{
    let after = entity_step(m, op);
    match op {
        EntityOp::Spawn { tick, entity } => {
            let step = Op { tick, index: entity.index() as int, value: Some(entity) };
            lemma_spawn_keeps_generations_ahead(m, tick, entity.index() as int, entity);
            lemma_step_shape(m, step);
            lemma_step_keeps_order(m, step);
            assert(after.state == apply(m, step).state);
            assert(after.journals == apply(m, step).journals);
        },
        EntityOp::Refused => {
            lemma_generation_advances(m.generation);
            lemma_counter_raised(m, next_generation(m.generation));
        },
        EntityOp::Remove { tick, index } => {
            let step = Op::<Entity> { tick, index, value: None };
            lemma_step_keeps_generations_ahead(m, step, m.generation);
            lemma_step_shape(m, step);
            lemma_step_keeps_order(m, step);
            assert(after == apply(m, step));
            assert(after.generation == m.generation);
        },
        EntityOp::Rollback { target } => {
            lemma_rollback_keeps_generations_ahead(m, target);
        },
    }
}

/// Whatever the history of an entity storage, of entities issued, slots
/// emptied and rollbacks, in ticks that never go back and while the
/// generation counter is below the width of the generation field: the
/// storage stays sound, with its counter ahead of every living entity.
pub proof fn lemma_entity_history_sound(m: Model<Entity>, ops: Seq<EntityOp>)
    requires
        entity_sound(m),
        entity_history_ok(m, ops),
    ensures
        entity_sound(entity_history(m, ops)),
    decreases ops.len(),
{
    if ops.len() > 0 {
        lemma_entity_history_sound(m, ops.drop_last());
        lemma_entity_step_sound(entity_history(m, ops.drop_last()), ops.last());
    }
}

/// An entity that is issued is new. Where the generation counter is ahead
/// of every living entity and below the width of the generation field,
/// the entity that is issued next has a generation above that of every
/// living entity, and so differs from each of them.
pub proof fn lemma_issued_entity_is_new(m: Model<Entity>, e: Entity)
    requires
        bounded(m.state, m.generation),
        m.generation < 0x7ff_ffff_ffff,
        e.generation() == next_generation(m.generation) % 0x800_0000_0000,
    ensures
        forall|i: int|
            0 <= i < m.state.len() && (#[trigger] m.state[i]).is_some() ==> m.state[i].unwrap().generation()
                < e.generation() && m.state[i].unwrap() != e,
{
    lemma_generation_advances(m.generation);
}

/// After any history that starts with an empty storage, the entity that
/// is issued next is new: its generation is above that of every entity
/// that lives then, also where rollbacks took the storage back in between.
pub proof fn lemma_issued_after_history_is_new(m: Model<Entity>, ops: Seq<EntityOp>, e: Entity)
    requires
        shaped(m),
        m.journals.len() == 1,
        forall|i: int| 0 <= i < m.state.len() ==> (#[trigger] m.state[i]).is_none(),
        entity_history_ok(m, ops),
        entity_history(m, ops).generation < 0x7ff_ffff_ffff,
        e.generation() == next_generation(entity_history(m, ops).generation) % 0x800_0000_0000,
    ensures
        forall|i: int|
            0 <= i < 262144 && (#[trigger] entity_history(m, ops).state[i]).is_some() ==> entity_history(
                m,
                ops,
            ).state[i].unwrap().generation() < e.generation(),
{
    lemma_empty_is_ahead(m);
    lemma_entity_history_sound(m, ops);
    lemma_issued_entity_is_new(entity_history(m, ops), e);
}

} // verus!
