use std::marker::PhantomData;
use vstd::prelude::*;

verus! {

/// A key issued by a [`crate::TypePool`]: a slot id together with the
/// identity of the pool that issued it.
#[derive(Debug, Hash)]
pub struct PoolKey<T> {
    slot: usize,
    pool: usize,
    marker: PhantomData<T>,
}

impl<T> PoolKey<T> {
    /// The slot id this key names.
    pub closed spec fn slot_id(&self) -> usize {
        self.slot
    }

    /// The identity of the pool that issued this key.
    pub closed spec fn pool_id(&self) -> usize {
        self.pool
    }

    pub(crate) fn new(slot: usize, pool: usize) -> (r: Self)
        ensures
            r.slot_id() == slot,
            r.pool_id() == pool,
    {
        PoolKey { slot, pool, marker: PhantomData }
    }

    /// The slot id this key names.
    pub fn slot(&self) -> (r: usize)
        ensures
            r == self.slot_id(),
    {
        self.slot
    }

    /// The identity of the pool that issued this key.
    pub fn pool(&self) -> (r: usize)
        ensures
            r == self.pool_id(),
    {
        self.pool
    }
}

impl<T> Clone for PoolKey<T> {
    fn clone(&self) -> (r: Self)
        ensures
            r.slot_id() == self.slot_id(),
            r.pool_id() == self.pool_id(),
    {
        PoolKey { slot: self.slot, pool: self.pool, marker: PhantomData }
    }
}

impl<T> Copy for PoolKey<T> {
}

impl<T> PartialEq for PoolKey<T> {
    fn eq(&self, rhs: &Self) -> (r: bool) {
        self.slot == rhs.slot && self.pool == rhs.pool
    }
}

impl<T> vstd::std_specs::cmp::PartialEqSpecImpl for PoolKey<T> {
    open spec fn obeys_eq_spec() -> bool {
        true
    }

    open spec fn eq_spec(&self, rhs: &PoolKey<T>) -> bool {
        self.slot_id() == rhs.slot_id() && self.pool_id() == rhs.pool_id()
    }
}

impl<T> Eq for PoolKey<T> {
}

} // verus!
