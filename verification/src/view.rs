//! The handles through which a system reads and writes one slot.

use crate::error::EcsError;
use crate::frame::Frame;
use crate::history::after_set;
use crate::storage::Storage;
use crate::tick::Tick;
use vstd::prelude::*;

verus! {

/// A read handle to the value of one slot.
pub struct View<'a, T> {
    pub data: &'a T,
}

impl<'a, T> View<'a, T> {
    /// A read handle to the value.
    pub fn new(data: &'a T) -> (v: Self)
        ensures
            *v.data == *data,
    {
        View { data }
    }

    /// The value that the handle stands for.
    pub fn get(&self) -> (r: &'a T)
        ensures
            *r == *self.data,
    {
        self.data
    }
}

/// A write handle to one occupied slot of a storage.
///
/// Every write goes through the storage, which journals it under the
/// handle's tick: the first write of a tick saves the value that the slot
/// held before, later writes of the same tick save nothing more.
pub struct ViewMut<'a, T> {
    pub storage: &'a mut Storage<T>,
    /// The slot that the handle stands for.
    pub index: u32,
    pub current_tick: Tick,
}

impl<'a, T> ViewMut<'a, T> {
    /// A write handle to slot `index` of the storage, writing under `current_tick`.
    pub fn new(storage: &'a mut Storage<T>, index: u32, current_tick: Tick) -> (v: Self)
        requires
            old(storage).wf(),
        ensures
            *v.storage == *old(storage),
            *final(v.storage) == *final(storage),
            v.index == index,
            v.current_tick == current_tick,
    {
        ViewMut { storage, index, current_tick }
    }

    /// Reads the slot.
    pub fn get(&self) -> (r: Option<&T>)
        requires
            self.storage.wf(),
        ensures
            r.is_some() == old(self.storage).slot(self.index as int).is_some(),
            r.is_some() ==> *r.unwrap() == old(self.storage).slot(self.index as int).unwrap(),
    {
        self.storage.get(self.index)
    }

    /// Replaces the value of the slot and journals the write. A handle to
    /// a slot that holds nothing, or to none at all, writes nothing.
    pub fn set(&mut self, value: T) -> (r: Result<(), EcsError>)
        requires
            old(self).storage.wf(),
        ensures
            final(self).storage.wf(),
            final(self).index == old(self).index,
            final(self).current_tick == old(self).current_tick,
            old(self).storage.slot(old(self).index as int).is_none() ==> r == Err::<(), EcsError>(
                EcsError::OutOfRange,
            ) && *final(self).storage == *old(self).storage,
            old(self).storage.slot(old(self).index as int).is_some() ==> ({
                let i = old(self).index as int;
                let before = *old(self).storage;
                let after = *final(self).storage;
                &&& r.is_ok()
                &&& after.model() == after_set(before.model(), old(self).current_tick.0, i, value)
                &&& after.changed() == before.changed().update(i, true)
            }),
    {
        if self.storage.get(self.index).is_none() {
            return Err(EcsError::OutOfRange);
        }
        let frame = Frame::new(self.current_tick);
        self.storage.set(&frame, self.index, value)
    }
}

} // verus!
