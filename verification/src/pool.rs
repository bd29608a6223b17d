//! Object pools that recycle freed nodes of a storage.

use vstd::prelude::*;

verus! {

/// Most nodes that a pool keeps; a node freed beyond that is dropped.
pub const POOL_CAPACITY: usize = 4096;

/// A free list of nodes ready for reuse, owned by one storage.
pub struct Pool<U> {
    pub items: Vec<U>,
}

impl<U> Pool<U> {
    /// A pool with nothing to hand out.
    pub fn new() -> (p: Self)
        ensures
            p.items@.len() == 0,
    {
        Pool { items: Vec::new() }
    }

    /// Number of nodes waiting for reuse.
    pub fn len(&self) -> (n: usize)
        ensures
            n == self.items@.len(),
    {
        self.items.len()
    }

    /// Hands out the node freed last, if any is waiting.
    pub fn acquire(&mut self) -> (r: Option<U>)
        ensures
            old(self).items@.len() == 0 ==> r.is_none() && final(self).items@ == old(self).items@,
            old(self).items@.len() > 0 ==> r == Some(old(self).items@.last()) && final(self).items@
                == old(self).items@.drop_last(),
    {
        self.items.pop()
    }

    /// Takes a node back. A pool that is at capacity drops it.
    pub fn free(&mut self, item: U)
        ensures
            old(self).items@.len() < POOL_CAPACITY ==> final(self).items@ == old(self).items@.push(item),
            old(self).items@.len() >= POOL_CAPACITY ==> final(self).items@ == old(self).items@,
    {
        if self.items.len() < POOL_CAPACITY {
            self.items.push(item);
        }
    }
}

impl<U> Default for Pool<U> {
    fn default() -> (p: Self)
        ensures
            p.items@.len() == 0,
    {
        Pool::new()
    }
}

/// Sixty-four empty child positions.
pub fn empty_children<U>() -> (v: Vec<Option<U>>)
    ensures
        v.len() == 64,
        forall|i: int| 0 <= i < 64 ==> (#[trigger] v[i]).is_none(),
{
    let mut v: Vec<Option<U>> = Vec::with_capacity(64);
    let mut k: usize = 0;
    while k < 64
        invariant
            k <= 64,
            v.len() == k,
            forall|i: int| 0 <= i < k ==> (#[trigger] v[i]).is_none(),
        decreases 64 - k,
    {
        v.push(None);
        k += 1;
    }
    v
}

/// A table of `n` empty positions.
pub fn empty_table<U>(n: usize) -> (v: Vec<Option<U>>)
    ensures
        v.len() == n,
        forall|i: int| 0 <= i < n ==> (#[trigger] v[i]).is_none(),
{
    let mut v: Vec<Option<U>> = Vec::new();
    let mut k: usize = 0;
    while k < n
        invariant
            k <= n,
            v.len() == k,
            forall|i: int| 0 <= i < k ==> (#[trigger] v[i]).is_none(),
        decreases n - k,
    {
        v.push(None);
        k += 1;
    }
    v
}

} // verus!
